//! Desktop sync, as something a person can set up: which devices share the folder, where the
//! folder is, and what a pass has to say for itself.

use vstd::prelude::*;

use crate::decision::value_in;
use crate::json::{quoted, read_document, text_of, write_text};
use crate::list;
use crate::order::{arranged, sort, Sortable};
use crate::text;
use crate::time::{whole_seconds, Instant};

verus! {

/// How far below the sync root a peer's database may sit. A desktop writes
/// `<root>/<device>/test.db`, a phone `<root>/<hostname>/<device>/test.db`.
pub const MAX_PEER_DEPTH: usize = 2;

/// A file found below the sync root.
#[derive(Debug)]
pub struct FoundFile {
    /// The directories between the root and the file.
    pub trail: Vec<String>,
    pub name: String,
    pub last_modified: Option<Instant>,
    pub size_bytes: u64,
}

#[verifier::ext_equal]
pub struct FoundV {
    pub trail: Seq<Seq<char>>,
    pub name: Seq<char>,
    pub last_modified: Option<int>,
    pub size_bytes: u64,
}

impl DeepView for FoundFile {
    type V = FoundV;

    open spec fn deep_view(&self) -> FoundV {
        FoundV {
            trail: self.trail.deep_view(),
            name: self.name@,
            last_modified: self.last_modified.deep_view(),
            size_bytes: self.size_bytes,
        }
    }
}

/// What one device left in the shared folder.
#[derive(Debug, PartialEq, Eq)]
pub struct Peer {
    /// The hostname directory, where there is one.
    pub hostname: Option<String>,
    /// The device's uuid: the name of the directory the database sits in.
    pub device_id: String,
    /// When that device last wrote.
    pub last_modified: Option<Instant>,
    pub size_bytes: u64,
    /// This machine's own database, which is in the folder but is not a peer.
    pub is_own: bool,
}

#[verifier::ext_equal]
pub struct PeerV {
    pub hostname: Option<Seq<char>>,
    pub device_id: Seq<char>,
    pub last_modified: Option<int>,
    pub size_bytes: u64,
    pub is_own: bool,
}

impl DeepView for Peer {
    type V = PeerV;

    open spec fn deep_view(&self) -> PeerV {
        PeerV {
            hostname: self.hostname.deep_view(),
            device_id: self.device_id@,
            last_modified: self.last_modified.deep_view(),
            size_bytes: self.size_bytes,
            is_own: self.is_own,
        }
    }
}

impl Clone for Peer {
    fn clone(&self) -> (r: Peer)
        ensures
            r.deep_view() == self.deep_view(),
    {
        Peer {
            hostname: list::copied_option(&self.hostname),
            device_id: self.device_id.clone(),
            last_modified: self.last_modified,
            size_bytes: self.size_bytes,
            is_own: self.is_own,
        }
    }
}

/// No name before any name, then in the order of strings.
pub open spec fn name_before(a: Option<Seq<char>>, b: Option<Seq<char>>) -> bool {
    match (a, b) {
        (None, Some(_)) => true,
        (Some(x), Some(y)) => text::before(x, y),
        _ => false,
    }
}

/// The own device first, then by hostname, then by device.
impl Sortable for Peer {
    open spec fn precedes(a: PeerV, b: PeerV) -> bool {
        (a.is_own && !b.is_own) || (a.is_own == b.is_own && (name_before(a.hostname, b.hostname) || (
        a.hostname == b.hostname && text::before(a.device_id, b.device_id))))
    }

    proof fn weak_order(a: PeerV, b: PeerV, c: PeerV) {
        text::before_is_weak_order(a.device_id, b.device_id, c.device_id);
        if let Some(x) = a.hostname {
            text::before_is_total_order(x, x, x);
        }
        if let (Some(x), Some(y), Some(z)) = (a.hostname, b.hostname, c.hostname) {
            text::before_is_weak_order(x, y, z);
        }
        if let (Some(x), Some(y)) = (a.hostname, b.hostname) {
            text::before_is_total_order(x, y, y);
        }
        if let (Some(x), Some(z)) = (a.hostname, c.hostname) {
            text::before_is_total_order(x, z, z);
        }
        if let (Some(y), Some(z)) = (b.hostname, c.hostname) {
            text::before_is_total_order(y, z, z);
        }
    }

    fn sorts_before(&self, other: &Self) -> (r: bool) {
        if self.is_own != other.is_own {
            return self.is_own;
        }
        let named_before = match (&self.hostname, &other.hostname) {
            (None, Some(_)) => true,
            (Some(x), Some(y)) => text::is_before(x.as_str(), y.as_str()),
            _ => false,
        };
        named_before || (list::same_option(&self.hostname, &other.hostname) && text::is_before(
            self.device_id.as_str(),
            other.device_id.as_str(),
        ))
    }
}

/// Whether a file name has the extension `db`. A name that is nothing but the extension has none.
pub open spec fn is_database(name: Seq<char>) -> bool {
    text::finishes_with(name, ".db"@) && name.len() > ".db"@.len()
}

/// Whether a file name has the extension `db`.
pub fn has_db_extension(name: &str) -> (r: bool)
    ensures
        r == is_database(name@),
{
    text::ends_with(name, ".db") && name.unicode_len() > ".db".unicode_len()
}

/// Whether a directory is kept by the synchroniser itself, such as `.stfolder`.
pub open spec fn hidden(name: Seq<char>) -> bool {
    text::begins_with(name, "."@)
}

/// Whether none of the directories is a hidden one.
pub open spec fn in_view(trail: Seq<Seq<char>>) -> bool {
    forall|i: int| 0 <= i < trail.len() ==> !hidden(#[trigger] trail[i])
}

/// The device that a found file stands for. The directory holding a database is the device that
/// wrote it; a database at the root belongs to nobody, and one too deep is somebody else's.
pub open spec fn peer_of(f: FoundV, own: Seq<char>) -> Option<PeerV> {
    if is_database(f.name) && in_view(f.trail) && 0 < f.trail.len() <= MAX_PEER_DEPTH {
        Some(
            PeerV {
                hostname: if f.trail.len() > 1 {
                    Some(f.trail[f.trail.len() - 2])
                } else {
                    None
                },
                device_id: f.trail.last(),
                last_modified: f.last_modified,
                size_bytes: f.size_bytes,
                is_own: f.trail.last() == own,
            },
        )
    } else {
        None
    }
}

/// The devices that the first `n` found files stand for.
pub open spec fn peers_found(files: Seq<FoundV>, own: Seq<char>, n: int) -> Seq<PeerV>
    decreases n,
{
    if n <= 0 {
        Seq::empty()
    } else {
        match peer_of(files[n - 1], own) {
            Some(p) => peers_found(files, own, n - 1).push(p),
            None => peers_found(files, own, n - 1),
        }
    }
}

/// Whether `a` was written after `b`. A file whose time is not known is older than any other.
pub open spec fn written_after(a: PeerV, b: PeerV) -> bool {
    match (a.last_modified, b.last_modified) {
        (Some(x), Some(y)) => x > y,
        (Some(_), None) => true,
        _ => false,
    }
}

/// Among the first `n`, the copy of a device that was written last; the first of several.
pub open spec fn newest(found: Seq<PeerV>, device: Seq<char>, n: int) -> Option<int>
    decreases n,
{
    if n <= 0 {
        None
    } else {
        let held = newest(found, device, n - 1);
        if found[n - 1].device_id != device {
            held
        } else {
            match held {
                Some(h) => if written_after(found[n - 1], found[h]) {
                    Some(n - 1)
                } else {
                    held
                },
                None => Some(n - 1),
            }
        }
    }
}

/// Those of the first `n` that are the newest copy of their device.
pub open spec fn newest_copies(found: Seq<PeerV>, n: int) -> Seq<PeerV>
    decreases n,
{
    if n <= 0 {
        Seq::empty()
    } else if newest(found, found[n - 1].device_id, found.len() as int) == Some(n - 1) {
        newest_copies(found, n - 1).push(found[n - 1])
    } else {
        newest_copies(found, n - 1)
    }
}

/// The devices of a folder: one row per device, the newest copy it left.
pub open spec fn devices_of(files: Seq<FoundV>, own: Seq<char>) -> Seq<PeerV> {
    let found = peers_found(files, own, files.len() as int);
    arranged::<Peer>(newest_copies(found, found.len() as int))
}

fn is_in_view(trail: &Vec<String>) -> (r: bool)
    ensures
        r == in_view(trail.deep_view()),
{
    let mut i: usize = 0;
    while i < trail.len()
        invariant
            i <= trail.len(),
            forall|k: int| 0 <= k < i ==> !hidden(#[trigger] trail.deep_view()[k]),
        decreases trail.len() - i,
    {
        assert(trail.deep_view()[i as int] == trail@[i as int]@);
        if text::starts_with(trail[i].as_str(), ".") {
            assert(hidden(trail.deep_view()[i as int]));
            return false;
        }
        i = i + 1;
    }
    true
}

fn peer_from(f: &FoundFile, own: &str) -> (r: Option<Peer>)
    ensures
        r.deep_view() == peer_of(f.deep_view(), own@),
{
    let ghost tv = f.trail.deep_view();
    let n: usize = f.trail.len();
    assert(tv.len() == n);
    if !has_db_extension(f.name.as_str()) || !is_in_view(&f.trail) || n == 0 || n > MAX_PEER_DEPTH {
        return None;
    }
    assert(tv[n - 1] == f.trail@[n - 1]@);
    let hostname = if n > 1 {
        assert(tv[n - 2] == f.trail@[n - 2]@);
        Some(f.trail[n - 2].clone())
    } else {
        None
    };
    let device_id = f.trail[n - 1].clone();
    let is_own = text::same(device_id.as_str(), own);
    let peer = Peer {
        hostname,
        device_id,
        last_modified: f.last_modified,
        size_bytes: f.size_bytes,
        is_own,
    };
    assert(peer.deep_view() =~= peer_of(f.deep_view(), own@)->0);
    Some(peer)
}

fn is_newer_copy(a: &Peer, b: &Peer) -> (r: bool)
    ensures
        r == written_after(a.deep_view(), b.deep_view()),
{
    match (a.last_modified, b.last_modified) {
        (Some(x), Some(y)) => y.earlier_than(x),
        (Some(_), None) => true,
        _ => false,
    }
}

fn newest_copy(found: &Vec<Peer>, device: &String) -> (r: Option<usize>)
    ensures
        match r {
            Some(i) => newest(found.deep_view(), device@, found.len() as int) == Some(i as int) && i
                < found.len(),
            None => newest(found.deep_view(), device@, found.len() as int) is None,
        },
{
    let ghost fv = found.deep_view();
    let mut held: Option<usize> = None;
    let mut i: usize = 0;
    while i < found.len()
        invariant
            i <= found.len(),
            fv == found.deep_view(),
            match held {
                Some(h) => h < i && newest(fv, device@, i as int) == Some(h as int),
                None => newest(fv, device@, i as int) is None,
            },
        decreases found.len() - i,
    {
        assert(fv[i as int] == found@[i as int].deep_view());
        if found[i].device_id == *device {
            let take: bool = match held {
                Some(h) => {
                    assert(fv[h as int] == found@[h as int].deep_view());
                    is_newer_copy(&found[i], &found[h])
                },
                None => true,
            };
            if take {
                held = Some(i);
            }
        }
        i = i + 1;
    }
    held
}

/// Every device in the shared folder, this device's own flagged and first.
///
/// One row per device, not one per file: a device may have several databases in the folder, and
/// the row is the one it wrote last. Sizes are not summed, since the copies are copies.
pub fn peers(files: &Vec<FoundFile>, own_device_id: &str) -> (r: Vec<Peer>)
    ensures
        r.deep_view() == devices_of(files.deep_view(), own_device_id@),
{
    let ghost fv = files.deep_view();
    assert(fv.len() == files.len());
    let mut found: Vec<Peer> = Vec::new();
    assert(found.deep_view() =~= Seq::empty());
    let mut i: usize = 0;
    while i < files.len()
        invariant
            i <= files.len(),
            fv == files.deep_view(),
            found.deep_view() == peers_found(fv, own_device_id@, i as int),
        decreases files.len() - i,
    {
        assert(fv[i as int] == files@[i as int].deep_view());
        match peer_from(&files[i], own_device_id) {
            Some(p) => {
                list::push(&mut found, p);
            },
            None => {},
        }
        i = i + 1;
    }
    let ghost pv = found.deep_view();
    assert(pv.len() == found.len());
    let mut out: Vec<Peer> = Vec::new();
    assert(out.deep_view() =~= Seq::empty());
    let mut k: usize = 0;
    while k < found.len()
        invariant
            k <= found.len(),
            pv == found.deep_view(),
            pv.len() == found.len(),
            out.deep_view() == newest_copies(pv, k as int),
        decreases found.len() - k,
    {
        assert(pv[k as int] == found@[k as int].deep_view());
        match newest_copy(&found, &found[k].device_id) {
            Some(h) => {
                if h == k {
                    list::push(&mut out, found[k].clone());
                }
            },
            None => {},
        }
        k = k + 1;
    }
    sort(&mut out);
    out
}

/// The newest copy is a copy of the device, and no copy of the device was written after it.
proof fn newest_sound(found: Seq<PeerV>, device: Seq<char>, n: int)
    requires
        0 <= n <= found.len(),
    ensures
        match newest(found, device, n) {
            Some(w) => 0 <= w < n && found[w].device_id == device && forall|j: int|
                0 <= j < n && (#[trigger] found[j]).device_id == device ==> !written_after(
                    found[j],
                    found[w],
                ),
            None => forall|j: int| 0 <= j < n ==> (#[trigger] found[j]).device_id != device,
        },
    decreases n,
{
    if n > 0 {
        newest_sound(found, device, n - 1);
    }
}

proof fn newest_copies_sound(found: Seq<PeerV>, n: int)
    requires
        0 <= n <= found.len(),
    ensures
        forall|k: int|
            0 <= k < newest_copies(found, n).len() ==> from_newest(
                found,
                #[trigger] newest_copies(found, n)[k],
                n,
            ),
        forall|i: int, j: int|
            0 <= i < j < newest_copies(found, n).len() ==> (#[trigger] newest_copies(
                found,
                n,
            )[i]).device_id != (#[trigger] newest_copies(found, n)[j]).device_id,
        forall|i: int|
            0 <= i < n && newest(found, (#[trigger] found[i]).device_id, found.len() as int)
                == Some(i) ==> newest_copies(found, n).contains(found[i]),
    decreases n,
{
    if n > 0 {
        newest_copies_sound(found, n - 1);
        let rest = newest_copies(found, n - 1);
        let all = newest_copies(found, n);
        if newest(found, found[n - 1].device_id, found.len() as int) == Some(n - 1) {
            assert(all == rest.push(found[n - 1]));
            assert forall|k: int| 0 <= k < all.len() implies from_newest(
                found,
                #[trigger] all[k],
                n,
            ) by {
                if k < rest.len() {
                    assert(all[k] == rest[k]);
                    assert(from_newest(found, rest[k], n - 1));
                }
            }
            assert forall|i: int, j: int| 0 <= i < j < all.len() implies (
            #[trigger] all[i]).device_id != (#[trigger] all[j]).device_id by {
                assert(all[i] == rest[i]);
                if j < rest.len() {
                    assert(all[j] == rest[j]);
                } else {
                    assert(from_newest(found, rest[i], n - 1));
                }
            }
            assert forall|i: int|
                0 <= i < n && newest(found, (#[trigger] found[i]).device_id, found.len() as int)
                    == Some(i) implies all.contains(found[i]) by {
                if i < n - 1 {
                    assert(rest.contains(found[i]));
                    let k = choose|k: int| 0 <= k < rest.len() && rest[k] == found[i];
                    assert(all[k] == found[i]);
                } else {
                    assert(all[rest.len() as int] == found[i]);
                }
            }
        } else {
            assert forall|k: int| 0 <= k < all.len() implies from_newest(
                found,
                #[trigger] all[k],
                n,
            ) by {
                assert(from_newest(found, rest[k], n - 1));
            }
        }
    }
}

/// Whether a row is the newest copy of its device, among the first `n`.
pub open spec fn from_newest(found: Seq<PeerV>, p: PeerV, n: int) -> bool {
    newest(found, p.device_id, found.len() as int) matches Some(w) && w < n && found[w] == p
}

/// Every device in the folder is listed exactly once, by a copy that none of its other copies was
/// written after.
pub proof fn one_device_is_one_row(files: Seq<FoundV>, own: Seq<char>)
    ensures
        ({
            let found = peers_found(files, own, files.len() as int);
            let rows = devices_of(files, own);
            &&& forall|i: int, j: int|
                0 <= i < j < rows.len() ==> (#[trigger] rows[i]).device_id != (
                #[trigger] rows[j]).device_id
            &&& forall|i: int|
                0 <= i < found.len() ==> lists_newest(rows, #[trigger] found[i])
        }),
{
    let found = peers_found(files, own, files.len() as int);
    let n = found.len() as int;
    let kept = newest_copies(found, n);
    let rows = devices_of(files, own);
    newest_copies_sound(found, n);
    crate::order::arranged_keeps::<Peer>(kept);
    assert(kept.no_duplicates()) by {
        assert forall|i: int, j: int| 0 <= i < kept.len() && 0 <= j < kept.len() && i
            != j implies kept[i] != kept[j] by {
            if i < j {
                assert(kept[i].device_id != kept[j].device_id);
            } else {
                assert(kept[j].device_id != kept[i].device_id);
            }
        }
    }
    kept.lemma_multiset_has_no_duplicates();
    rows.lemma_multiset_has_no_duplicates_conv();
    assert forall|i: int, j: int| 0 <= i < j < rows.len() implies (#[trigger] rows[i]).device_id
        != (#[trigger] rows[j]).device_id by {
        crate::order::arranged_contains::<Peer>(kept, rows[i]);
        crate::order::arranged_contains::<Peer>(kept, rows[j]);
        assert(rows.contains(rows[i]) && rows.contains(rows[j]));
        let a = choose|a: int| 0 <= a < kept.len() && kept[a] == rows[i];
        let b = choose|b: int| 0 <= b < kept.len() && kept[b] == rows[j];
        if a < b {
            assert(kept[a].device_id != kept[b].device_id);
        } else if b < a {
            assert(kept[b].device_id != kept[a].device_id);
        }
    }
    assert forall|i: int| 0 <= i < found.len() implies lists_newest(rows, #[trigger] found[i]) by {
        let device = found[i].device_id;
        newest_sound(found, device, n);
        let w = newest(found, device, n)->0;
        assert(kept.contains(found[w]));
        crate::order::arranged_contains::<Peer>(kept, found[w]);
        let k = choose|k: int| 0 <= k < rows.len() && rows[k] == found[w];
        assert(rows[k].device_id == device);
    }
}

/// Whether the rows list a device, by a copy no older than this one.
pub open spec fn lists_newest(rows: Seq<PeerV>, p: PeerV) -> bool {
    exists|k: int|
        0 <= k < rows.len() && (#[trigger] rows[k]).device_id == p.device_id && !written_after(
            p,
            rows[k],
        )
}

/// The components of the default folder: inside the documents, not at the top of the home
/// directory, which belongs to the person. Where there is no home directory it is below the current
/// one.
pub open spec fn default_parts(home: Option<Seq<Seq<char>>>) -> Seq<Seq<char>> {
    (match home {
        Some(parts) => parts,
        None => seq!["."@],
    }).push("Documents"@).push("ActivityWatch-sync"@)
}

/// The default folder, when nothing has been chosen, as the components of its path.
pub fn default_sync_dir(home: Option<Vec<String>>) -> (r: Vec<String>)
    ensures
        r.deep_view() == default_parts(
            match home {
                Some(parts) => Some(parts.deep_view()),
                None => None,
            },
        ),
{
    let mut parts: Vec<String> = match home {
        Some(parts) => parts,
        None => {
            let mut here: Vec<String> = Vec::new();
            list::push(&mut here, ".".to_owned());
            assert(here.deep_view() =~= seq!["."@]);
            here
        },
    };
    list::push(&mut parts, "Documents".to_owned());
    list::push(&mut parts, "ActivityWatch-sync".to_owned());
    parts
}

/// The folder that was chosen, out of what is stored: a JSON string, or else the bare text as it
/// came; nothing where neither says anything.
pub open spec fn dir_in(raw: Seq<char>) -> Option<Seq<char>> {
    let quoted = match value_in(raw) {
        Some(v) => text_of(v),
        None => None,
    };
    if quoted is Some && text::trimmed(quoted->0).len() > 0 {
        quoted
    } else if text::trimmed(raw).len() > 0 {
        Some(text::trimmed(raw))
    } else {
        None
    }
}

/// The folder that was chosen; `None` means the default one.
pub fn sync_dir(stored: Option<&str>) -> (r: Option<String>)
    ensures
        r.deep_view() == match stored {
            Some(raw) => dir_in(raw@),
            None => None,
        },
{
    let raw = match stored {
        Some(raw) => raw,
        None => {
            return None;
        },
    };
    match read_document(raw) {
        Some(d) => match d.value.as_text() {
            Some(s) => {
                if !text::trim(s.as_str()).as_str().is_empty() {
                    return Some(s.clone());
                }
            },
            None => {},
        },
        None => {},
    }
    let bare = text::trim(raw);
    if bare.as_str().is_empty() {
        None
    } else {
        Some(bare)
    }
}

/// Where the shared folder is.
#[derive(Debug, PartialEq, Eq)]
pub enum Folder {
    /// Where somebody chose to have it.
    Chosen(String),
    /// At the default place, as the components of its path.
    Default(Vec<String>),
}

/// The shared folder: the one that was chosen, and the default one until one is.
pub fn sync_folder(stored: Option<&str>, home: Option<Vec<String>>) -> (r: Folder)
    ensures
        match stored {
            Some(raw) => dir_in(raw@),
            None => None,
        } matches Some(dir) ==> (r matches Folder::Chosen(d) && d@ == dir),
        match stored {
            Some(raw) => dir_in(raw@),
            None => None,
        } is None ==> (r matches Folder::Default(parts) && parts.deep_view() == default_parts(
            match home {
                Some(parts) => Some(parts.deep_view()),
                None => None,
            },
        )),
{
    match sync_dir(stored) {
        Some(dir) => Folder::Chosen(dir),
        None => Folder::Default(default_sync_dir(home)),
    }
}

/// A folder that was chosen, as it is stored. It comes back as it was chosen.
pub fn stored_sync_dir(path: &str) -> (r: String)
    ensures
        r@ == quoted(path@),
        text::trimmed(path@).len() > 0 ==> dir_in(r@) == Some(path@),
{
    write_text(path)
}

/// Whether the background pass is on, as it is stored.
pub fn stored_sync_enabled(enabled: bool) -> (r: &'static str)
    ensures
        r@ == if enabled {
            "true"@
        } else {
            "false"@
        },
        enabled == (r@ == "true"@),
{
    proof {
        reveal_strlit("true");
        reveal_strlit("false");
    }
    if enabled {
        "true"
    } else {
        assert("false"@.len() != "true"@.len());
        "false"
    }
}

/// Whether the background pass is on. Off until somebody turns it on.
pub fn sync_enabled(stored: Option<&str>) -> (r: bool)
    ensures
        r == (stored matches Some(s) && s@ == "true"@),
{
    match stored {
        Some(s) => text::same(s, "true"),
        None => false,
    }
}

/// Why a folder was refused.
#[derive(Clone, Copy, Debug, PartialEq, Eq, Structural)]
pub enum DirError {
    Empty,
    /// It would mean a different folder depending on where the server was started.
    NotFull,
}

impl DirError {
    /// What to tell whoever chose the folder.
    pub fn message(self) -> (r: &'static str)
        ensures
            r@ == match self {
                DirError::Empty => "A sync folder needs a path."@,
                DirError::NotFull => "The sync folder has to be a full path."@,
            },
    {
        match self {
            DirError::Empty => "A sync folder needs a path.",
            DirError::NotFull => "The sync folder has to be a full path.",
        }
    }
}

/// Check a folder that was chosen: without the white space around it, it must not be empty, and it
/// must be a full path, which `full` says. It is otherwise taken as it was given.
pub fn check_sync_dir(dir: &str, full: bool) -> (r: Result<String, DirError>)
    ensures
        match r {
            Ok(path) => path@ == text::trimmed(dir@) && path@.len() > 0 && full,
            Err(DirError::Empty) => text::trimmed(dir@).len() == 0,
            Err(DirError::NotFull) => text::trimmed(dir@).len() > 0 && !full,
        },
{
    let path = text::trim(dir);
    if path.as_str().is_empty() {
        return Err(DirError::Empty);
    }
    if !full {
        return Err(DirError::NotFull);
    }
    Ok(path)
}

/// The count of events that a line of a pass's log reports, if it reports one: the first word
/// behind the first `Synced `, up to the next one, where it is a number.
pub open spec fn synced_in(line: Seq<char>) -> Option<int> {
    match text::first_occurrence(line, "Synced "@) {
        Some(i) => {
            let rest = line.skip(i + "Synced "@.len());
            let piece = match text::first_occurrence(rest, "Synced "@) {
                Some(j) => rest.take(j),
                None => rest,
            };
            match text::first_word(piece) {
                Some(w) => match text::unsigned_in(w) {
                    Some(v) => if v <= u64::MAX {
                        Some(v)
                    } else {
                        None
                    },
                    None => None,
                },
                None => None,
            }
        },
        None => None,
    }
}

/// The events and the buckets that the first `n` lines report.
pub open spec fn moved(lines: Seq<Seq<char>>, n: int) -> (int, int)
    decreases n,
{
    if n <= 0 {
        (0, 0)
    } else {
        let (events, buckets) = moved(lines, n - 1);
        match synced_in(lines[n - 1]) {
            Some(v) => if v > 0 {
                (events + v, buckets + 1)
            } else {
                (events, buckets)
            },
            None => (events, buckets),
        }
    }
}

/// Whether what a log reports can be counted.
pub open spec fn counts_fit(log: Seq<char>) -> bool {
    let lines = text::lines_of(log);
    moved(lines, lines.len() as int).0 <= u64::MAX && moved(lines, lines.len() as int).1 <= u32::MAX
}

fn synced_count(line: &str) -> (r: Option<u64>)
    ensures
        match r {
            Some(n) => synced_in(line@) == Some(n as int),
            None => synced_in(line@) is None,
        },
{
    let i = match text::find(line, "Synced ") {
        Some(i) => i,
        None => {
            return None;
        },
    };
    let whole: usize = line.unicode_len();
    let from: usize = i + "Synced ".unicode_len();
    let rest = text::part(line, from, whole);
    assert(rest@ =~= line@.skip(i + "Synced "@.len()));
    let piece = match text::find(rest.as_str(), "Synced ") {
        Some(j) => {
            let p = text::part(rest.as_str(), 0, j);
            assert(p@ =~= rest@.take(j as int));
            p
        },
        None => rest,
    };
    match text::word(piece.as_str()) {
        Some(w) => text::parse_u64(w.as_str()),
        None => None,
    }
}

proof fn moved_grows(lines: Seq<Seq<char>>, i: int, n: int)
    requires
        0 <= i <= n <= lines.len(),
    ensures
        0 <= moved(lines, i).0 <= moved(lines, n).0,
        0 <= moved(lines, i).1 <= moved(lines, n).1,
    decreases n,
{
    if n > 0 {
        if i < n {
            moved_grows(lines, i, n - 1);
        } else {
            moved_grows(lines, n - 1, n - 1);
        }
    }
}

/// The events and the buckets that a log reports; `None` where they cannot be counted.
pub fn count_moved(log: &str) -> (r: Option<(u64, u32)>)
    ensures
        match r {
            Some(c) => counts_fit(log@) && moved(
                text::lines_of(log@),
                text::lines_of(log@).len() as int,
            ) == (c.0 as int, c.1 as int),
            None => !counts_fit(log@),
        },
{
    let lines = text::lines(log);
    let ghost lv = lines.deep_view();
    assert(lv.len() == lines.len());
    let mut events: u64 = 0;
    let mut buckets: u32 = 0;
    let mut i: usize = 0;
    while i < lines.len()
        invariant
            i <= lines.len(),
            lv == lines.deep_view(),
            lv.len() == lines.len(),
            lv == text::lines_of(log@),
            moved(lv, i as int) == (events as int, buckets as int),
        decreases lines.len() - i,
    {
        assert(lv[i as int] == lines@[i as int]@);
        proof {
            moved_grows(lv, i + 1, lv.len() as int);
        }
        match synced_count(lines[i].as_str()) {
            Some(n) => {
                if n > 0 {
                    match events.checked_add(n) {
                        Some(e) => {
                            events = e;
                        },
                        None => {
                            return None;
                        },
                    }
                    match buckets.checked_add(1) {
                        Some(b) => {
                            buckets = b;
                        },
                        None => {
                            return None;
                        },
                    }
                }
            },
            None => {},
        }
        i = i + 1;
    }
    Some((events, buckets))
}

/// A plural ending, where there is more or less than one.
pub open spec fn plural(n: int) -> Seq<char> {
    if n == 1 {
        Seq::empty()
    } else {
        "s"@
    }
}

/// What a page says about a pass that moved so many events across so many buckets.
pub open spec fn sentence(events: int, buckets: int) -> Seq<char> {
    if events == 0 {
        "Already up to date."@
    } else {
        "Synced "@ + text::decimal(events as nat) + " event"@ + plural(events) + " across "@
            + text::decimal(buckets as nat) + " bucket"@ + plural(buckets) + "."@
    }
}

/// Turn a pass's log into the one sentence a page should show.
///
/// A pass that moved nothing says so plainly: an empty message reads as a failure that forgot to
/// explain itself.
pub fn summarise(log: &str) -> (r: String)
    requires
        counts_fit(log@),
    ensures
        ({
            let m = moved(text::lines_of(log@), text::lines_of(log@).len() as int);
            r@ == sentence(m.0, m.1)
        }),
{
    match count_moved(log) {
        Some(c) => {
            if c.0 == 0 {
                return "Already up to date.".to_owned();
            }
            let mut out = "Synced ".to_owned();
            out.append(text::to_decimal(c.0).as_str());
            out.append(" event");
            if c.0 != 1 {
                out.append("s");
            }
            out.append(" across ");
            out.append(text::to_decimal(c.1 as u64).as_str());
            out.append(" bucket");
            if c.1 != 1 {
                out.append("s");
            }
            out.append(".");
            assert(out@ =~= sentence(c.0 as int, c.1 as int));
            out
        },
        None => {
            assert(false);
            String::new()
        },
    }
}

/// The last of the first `n` lines that is not blank.
pub open spec fn last_said(lines: Seq<Seq<char>>, n: int) -> Option<Seq<char>>
    decreases n,
{
    if n <= 0 {
        None
    } else if text::trimmed(lines[n - 1]).len() > 0 {
        Some(lines[n - 1])
    } else {
        last_said(lines, n - 1)
    }
}

/// Why a pass failed: the last thing its log says.
pub fn failure_message(log: &str) -> (r: String)
    ensures
        r@ == match last_said(text::lines_of(log@), text::lines_of(log@).len() as int) {
            Some(line) => line,
            None => "aw-sync failed with no output"@,
        },
{
    let lines = text::lines(log);
    let ghost lv = lines.deep_view();
    assert(lv.len() == lines.len());
    let mut i: usize = lines.len();
    while i > 0
        invariant
            i <= lines.len(),
            lv == lines.deep_view(),
            lv == text::lines_of(log@),
            last_said(lv, lv.len() as int) == last_said(lv, i as int),
        decreases i,
    {
        assert(lv[i - 1] == lines@[i - 1]@);
        if !text::trim(lines[i - 1].as_str()).as_str().is_empty() {
            return lines[i - 1].clone();
        }
        i = i - 1;
    }
    "aw-sync failed with no output".to_owned()
}

/// How a pass went.
#[derive(Debug)]
pub enum PassOutcome {
    /// One was under way already.
    AlreadyRunning,
    /// There is nothing to run.
    NotInstalled,
    /// The folder could not be made: the path, and why.
    NoFolder(String, String),
    /// It ran to the end; its log.
    Finished(String),
    /// It ran and failed; its log.
    Failed(String),
    /// It could not be started, and why.
    NotStarted(String),
}

/// Whether a pass counts as a success. One that joined a pass under way does: what was asked for is
/// happening.
pub open spec fn went_well(outcome: PassOutcome) -> bool {
    outcome is AlreadyRunning || outcome is Finished
}

/// The one line that says how a pass went.
pub open spec fn said(outcome: PassOutcome) -> Seq<char> {
    match outcome {
        PassOutcome::AlreadyRunning => "A sync was already running; this request joined it."@,
        PassOutcome::NotInstalled =>
            "aw-sync is not installed beside this server, so this build cannot sync."@,
        PassOutcome::NoFolder(path, why) => "Could not create "@ + path@ + ": "@ + why@,
        PassOutcome::Finished(log) => {
            let m = moved(text::lines_of(log@), text::lines_of(log@).len() as int);
            sentence(m.0, m.1)
        },
        PassOutcome::Failed(log) => match last_said(
            text::lines_of(log@),
            text::lines_of(log@).len() as int,
        ) {
            Some(line) => line,
            None => "aw-sync failed with no output"@,
        },
        PassOutcome::NotStarted(why) => "Could not start aw-sync: "@ + why@,
    }
}

/// The outcome of one pass, kept so that a page can say what happened.
#[derive(Debug, PartialEq, Eq)]
pub struct LastRun {
    pub at: Instant,
    pub ok: bool,
    pub message: String,
    /// A person pressed the button, rather than the timer coming round.
    pub manual: bool,
}

impl Clone for LastRun {
    fn clone(&self) -> (r: LastRun)
        ensures
            r == *self,
    {
        LastRun { at: self.at, ok: self.ok, message: self.message.clone(), manual: self.manual }
    }
}

/// What to remember of a pass.
pub fn run_once(outcome: PassOutcome, at: Instant, manual: bool) -> (r: LastRun)
    requires
        outcome matches PassOutcome::Finished(log) ==> counts_fit(log@),
    ensures
        r.at == at,
        r.manual == manual,
        r.ok == went_well(outcome),
        r.message@ == said(outcome),
{
    let (ok, message) = match &outcome {
        PassOutcome::AlreadyRunning => (
            true,
            "A sync was already running; this request joined it.".to_owned(),
        ),
        PassOutcome::NotInstalled => (
            false,
            "aw-sync is not installed beside this server, so this build cannot sync.".to_owned(),
        ),
        PassOutcome::NoFolder(path, why) => {
            let mut m = "Could not create ".to_owned();
            m.append(path.as_str());
            m.append(": ");
            m.append(why.as_str());
            (false, m)
        },
        PassOutcome::Finished(log) => (true, summarise(log.as_str())),
        PassOutcome::Failed(log) => (false, failure_message(log.as_str())),
        PassOutcome::NotStarted(why) => {
            let mut m = "Could not start aw-sync: ".to_owned();
            m.append(why.as_str());
            (false, m)
        },
    };
    LastRun { at, ok, message, manual }
}

/// Whole seconds since something was written; zero where it was written later than now.
pub fn age_secs(modified: Instant, now: Instant) -> (r: u64)
    ensures
        r == if now@ >= modified@ {
            whole_seconds(now@ - modified@)
        } else {
            0
        },
{
    if now.earlier_than(modified) {
        return 0;
    }
    let _ = now.nanos();
    let _ = modified.nanos();
    let secs = now.since(modified).num_seconds();
    secs as u64
}

/// Everything a sync page draws, in one answer: the parts are only meaningful together.
#[derive(Debug)]
pub struct SyncStatus {
    pub sync_dir: String,
    pub sync_dir_exists: bool,
    pub default_sync_dir: String,
    pub enabled: bool,
    pub own_device_id: String,
    pub peers: Vec<Peer>,
    pub last_run: Option<LastRun>,
    pub can_sync: bool,
    pub running: bool,
}

/// A change to the folder, the switch, or both. What is absent is left alone.
#[derive(Debug)]
pub struct SyncConfig {
    pub dir: Option<String>,
    pub enabled: Option<bool>,
}

} // verus!
