//! Which databases in the shared folder are peers, whose they are, and how the local server is
//! reached.

use vstd::prelude::*;

use crate::list;
use crate::order::{arranged, arranged_contains, sort, Sortable};
use crate::sync::SyncMode;
use crate::sync_setup::{has_db_extension, is_database};
use crate::text;

verus! {

/// A file found in the shared folder.
#[derive(Debug, PartialEq, Eq)]
pub struct PathEntry {
    /// The whole path.
    pub path: String,
    /// Its components from the root of the file system on. One that names no directory, such as
    /// `..`, is empty.
    pub parts: Vec<String>,
}

#[verifier::ext_equal]
pub struct PathV {
    pub path: Seq<char>,
    pub parts: Seq<Seq<char>>,
}

impl DeepView for PathEntry {
    type V = PathV;

    open spec fn deep_view(&self) -> PathV {
        PathV { path: self.path@, parts: self.parts.deep_view() }
    }
}

impl Clone for PathEntry {
    fn clone(&self) -> (r: PathEntry)
        ensures
            r.deep_view() == self.deep_view(),
    {
        PathEntry { path: self.path.clone(), parts: list::copied(&self.parts) }
    }
}

/// Whether one list of components comes strictly before another, both read from position `i` on.
pub open spec fn parts_before(a: Seq<Seq<char>>, b: Seq<Seq<char>>, i: int) -> bool
    decreases b.len() - i,
{
    if i < 0 || i >= b.len() {
        false
    } else if i >= a.len() {
        true
    } else if a[i] == b[i] {
        parts_before(a, b, i + 1)
    } else {
        text::before(a[i], b[i])
    }
}

proof fn parts_weak_order(a: Seq<Seq<char>>, b: Seq<Seq<char>>, c: Seq<Seq<char>>, i: int)
    requires
        0 <= i,
    ensures
        !parts_before(a, a, i),
        parts_before(a, b, i) && parts_before(b, c, i) ==> parts_before(a, c, i),
        !parts_before(a, b, i) && !parts_before(b, c, i) ==> !parts_before(a, c, i),
    decreases a.len() + b.len() + c.len() - i,
{
    if i < a.len() || i < b.len() || i < c.len() {
        parts_weak_order(a, b, c, i + 1);
        if i < a.len() && i < b.len() {
            text::before_is_total_order(a[i], b[i], b[i]);
        }
        if i < b.len() && i < c.len() {
            text::before_is_total_order(b[i], c[i], c[i]);
        }
        if i < a.len() && i < c.len() {
            text::before_is_total_order(a[i], c[i], c[i]);
        }
        if i < a.len() && i < b.len() && i < c.len() {
            text::before_is_weak_order(a[i], b[i], c[i]);
        }
    }
}

/// By components.
impl Sortable for PathEntry {
    open spec fn precedes(a: PathV, b: PathV) -> bool {
        parts_before(a.parts, b.parts, 0)
    }

    proof fn weak_order(a: PathV, b: PathV, c: PathV) {
        parts_weak_order(a.parts, b.parts, c.parts, 0);
    }

    fn sorts_before(&self, other: &Self) -> (r: bool) {
        let ghost a = self.parts.deep_view();
        let ghost b = other.parts.deep_view();
        assert(a.len() == self.parts.len() && b.len() == other.parts.len());
        let mut i: usize = 0;
        while i < self.parts.len() && i < other.parts.len()
            invariant
                a == self.parts.deep_view(),
                b == other.parts.deep_view(),
                a.len() == self.parts.len(),
                b.len() == other.parts.len(),
                i <= a.len(),
                i <= b.len(),
                parts_before(a, b, 0) == parts_before(a, b, i as int),
            decreases a.len() - i,
        {
            assert(a[i as int] == self.parts@[i as int]@);
            assert(b[i as int] == other.parts@[i as int]@);
            if self.parts[i] != other.parts[i] {
                return text::is_before(self.parts[i].as_str(), other.parts[i].as_str());
            }
            i = i + 1;
        }
        i < other.parts.len()
    }
}

/// Whether a file is a database one or two directories below the root, which has `root_len`
/// components. The two devices that share a folder do not nest it the same way; and one lying at
/// the root belongs to nobody.
pub open spec fn remote_file(p: PathV, root_len: int) -> bool {
    p.parts.len() > 0 && is_database(p.parts.last()) && root_len + 2 <= p.parts.len() <= root_len
        + 3
}

/// Whether a path lies at or below another.
pub open spec fn lies_under(parts: Seq<Seq<char>>, base: Seq<Seq<char>>) -> bool {
    base.len() <= parts.len() && parts.take(base.len() as int) == base
}

/// Whether a file is a peer's: not this device's own, and under the path asked for.
pub open spec fn from_peer(
    p: PathV,
    root_len: int,
    device: Seq<char>,
    under: Option<Seq<Seq<char>>>,
) -> bool {
    &&& remote_file(p, root_len)
    &&& text::first_occurrence(p.path, device) is None
    &&& under matches Some(base) ==> lies_under(p.parts, base)
}

/// Those of the first `n` files that are peers'.
pub open spec fn peer_files(
    files: Seq<PathV>,
    root_len: int,
    device: Seq<char>,
    under: Option<Seq<Seq<char>>>,
    n: int,
) -> Seq<PathV>
    decreases n,
{
    if n <= 0 {
        Seq::empty()
    } else if from_peer(files[n - 1], root_len, device, under) {
        peer_files(files, root_len, device, under, n - 1).push(files[n - 1])
    } else {
        peer_files(files, root_len, device, under, n - 1)
    }
}

fn is_remote_file(p: &PathEntry, root_len: usize) -> (r: bool)
    ensures
        r == remote_file(p.deep_view(), root_len as int),
{
    let ghost pv = p.parts.deep_view();
    let n: usize = p.parts.len();
    assert(pv.len() == n);
    if n == 0 {
        return false;
    }
    assert(pv[n - 1] == p.parts@[n - 1]@);
    if n < root_len {
        return false;
    }
    let depth: usize = n - root_len;
    depth >= 2 && depth <= 3 && has_db_extension(p.parts[n - 1].as_str())
}

fn is_under(parts: &Vec<String>, base: &Vec<String>) -> (r: bool)
    ensures
        r == lies_under(parts.deep_view(), base.deep_view()),
{
    let ghost pv = parts.deep_view();
    let ghost bv = base.deep_view();
    assert(pv.len() == parts.len() && bv.len() == base.len());
    if base.len() > parts.len() {
        return false;
    }
    let mut i: usize = 0;
    while i < base.len()
        invariant
            i <= base.len() <= parts.len(),
            pv == parts.deep_view(),
            bv == base.deep_view(),
            pv.len() == parts.len(),
            bv.len() == base.len(),
            forall|k: int| 0 <= k < i ==> pv[k] == #[trigger] bv[k],
        decreases base.len() - i,
    {
        assert(pv[i as int] == parts@[i as int]@);
        assert(bv[i as int] == base@[i as int]@);
        if parts[i] != base[i] {
            assert(pv.take(bv.len() as int)[i as int] != bv[i as int]);
            return false;
        }
        i = i + 1;
    }
    assert(pv.take(bv.len() as int) =~= bv);
    true
}

/// The databases of peers, sorted: those of this device are left out, and where `sync_db` names a
/// path, so is whatever does not lie under it.
pub fn find_remotes_nonlocal(
    files: &Vec<PathEntry>,
    root_len: usize,
    device_id: &str,
    sync_db: Option<&Vec<String>>,
) -> (r: Vec<PathEntry>)
    ensures
        r.deep_view() == arranged::<PathEntry>(
            peer_files(
                files.deep_view(),
                root_len as int,
                device_id@,
                match sync_db {
                    Some(base) => Some(base.deep_view()),
                    None => None,
                },
                files.len() as int,
            ),
        ),
{
    let ghost fv = files.deep_view();
    let ghost under = match sync_db {
        Some(base) => Some(base.deep_view()),
        None => None,
    };
    let mut out: Vec<PathEntry> = Vec::new();
    assert(out.deep_view() =~= Seq::empty());
    let mut i: usize = 0;
    while i < files.len()
        invariant
            i <= files.len(),
            fv == files.deep_view(),
            under == match sync_db {
                Some(base) => Some(base.deep_view()),
                None => None,
            },
            out.deep_view() == peer_files(fv, root_len as int, device_id@, under, i as int),
        decreases files.len() - i,
    {
        assert(fv[i as int] == files@[i as int].deep_view());
        let wanted: bool = match sync_db {
            Some(base) => is_under(&files[i].parts, base),
            None => true,
        };
        if wanted && is_remote_file(&files[i], root_len) && !text::contains(
            files[i].path.as_str(),
            device_id,
        ) {
            list::push(&mut out, files[i].clone());
        }
        i = i + 1;
    }
    sort(&mut out);
    out
}

/// The device a database belongs to: the directory holding it.
pub open spec fn origin_in(parts: Seq<Seq<char>>) -> Option<Seq<char>> {
    if parts.len() >= 2 && parts[parts.len() - 2].len() > 0 {
        Some(parts[parts.len() - 2])
    } else {
        None
    }
}

/// The device a database belongs to, given the components of its path.
///
/// `None` rather than a guess where no directory holds it: an event that arrives untagged can still
/// be attributed from its bucket, and one tagged with the wrong device cannot be told apart from a
/// correct one.
pub fn origin_from_db_path(parts: &Vec<String>) -> (r: Option<String>)
    ensures
        r.deep_view() == origin_in(parts.deep_view()),
{
    let n: usize = parts.len();
    assert(parts.deep_view().len() == n);
    if n < 2 {
        return None;
    }
    assert(parts.deep_view()[n - 2] == parts@[n - 2]@);
    if parts[n - 2].as_str().is_empty() {
        None
    } else {
        Some(parts[n - 2].clone())
    }
}

/// One leg of a pass.
#[derive(Debug)]
pub enum Transfer {
    /// Copy a peer's database into the local server: its path, and the device it belongs to, where
    /// that can be told.
    Pull(String, Option<String>),
    /// Copy the local server's own data into this device's database in the folder.
    Push(String),
}

pub enum TransferV {
    Pull(Seq<char>, Option<Seq<char>>),
    Push(Seq<char>),
}

impl DeepView for Transfer {
    type V = TransferV;

    open spec fn deep_view(&self) -> TransferV {
        match self {
            Transfer::Pull(path, origin) => TransferV::Pull(path@, origin.deep_view()),
            Transfer::Push(device) => TransferV::Push(device@),
        }
    }
}

pub open spec fn pulls_from(remotes: Seq<PathV>) -> Seq<TransferV> {
    Seq::new(
        remotes.len(),
        |i: int| TransferV::Pull(remotes[i].path, origin_in(remotes[i].parts)),
    )
}

/// The legs of a pass: every peer's database is pulled before this device's data is pushed.
pub open spec fn legs(remotes: Seq<PathV>, device_id: Seq<char>, mode: SyncMode) -> Seq<TransferV> {
    let pulled = if mode == SyncMode::Pull || mode == SyncMode::Both {
        pulls_from(remotes)
    } else {
        Seq::empty()
    };
    if mode == SyncMode::Push || mode == SyncMode::Both {
        pulled.push(TransferV::Push(device_id))
    } else {
        pulled
    }
}

/// What a single sync pass does, given the files in the folder.
pub fn sync_run(
    files: &Vec<PathEntry>,
    root_len: usize,
    device_id: &str,
    sync_db: Option<&Vec<String>>,
    mode: SyncMode,
) -> (r: Vec<Transfer>)
    ensures
        r.deep_view() == legs(
            arranged::<PathEntry>(
                peer_files(
                    files.deep_view(),
                    root_len as int,
                    device_id@,
                    match sync_db {
                        Some(base) => Some(base.deep_view()),
                        None => None,
                    },
                    files.len() as int,
                ),
            ),
            device_id@,
            mode,
        ),
{
    let mut out: Vec<Transfer> = Vec::new();
    assert(out.deep_view() =~= Seq::empty());
    if mode.pulls() {
        let remotes = find_remotes_nonlocal(files, root_len, device_id, sync_db);
        let ghost rv = remotes.deep_view();
        let ghost goal = pulls_from(rv);
        assert(rv.len() == remotes.len());
        assert(out.deep_view() =~= goal.take(0));
        let mut i: usize = 0;
        while i < remotes.len()
            invariant
                i <= remotes.len(),
                rv == remotes.deep_view(),
                rv.len() == remotes.len(),
                goal == pulls_from(rv),
                out.deep_view() == goal.take(i as int),
            decreases remotes.len() - i,
        {
            assert(rv[i as int] == remotes@[i as int].deep_view());
            let origin = origin_from_db_path(&remotes[i].parts);
            let leg = Transfer::Pull(remotes[i].path.clone(), origin);
            assert(leg.deep_view() == goal[i as int]);
            list::push(&mut out, leg);
            i = i + 1;
            assert(out.deep_view() =~= goal.take(i as int));
        }
        assert(out.deep_view() =~= goal);
    }
    if mode.pushes() {
        list::push(&mut out, Transfer::Push(device_id.to_owned()));
    }
    out
}

proof fn peer_files_are_peers(
    files: Seq<PathV>,
    root_len: int,
    device: Seq<char>,
    under: Option<Seq<Seq<char>>>,
    n: int,
    p: PathV,
)
    requires
        0 <= n <= files.len(),
    ensures
        peer_files(files, root_len, device, under, n).contains(p) <==> exists|k: int|
            0 <= k < n && #[trigger] files[k] == p && from_peer(p, root_len, device, under),
    decreases n,
{
    if n > 0 {
        peer_files_are_peers(files, root_len, device, under, n - 1, p);
        let rest = peer_files(files, root_len, device, under, n - 1);
        let all = peer_files(files, root_len, device, under, n);
        if all != rest {
            if rest.contains(p) {
                let k = choose|k: int| 0 <= k < rest.len() && rest[k] == p;
                assert(all[k] == p);
            }
            assert(all[rest.len() as int] == files[n - 1]);
        }
        assert(files[n - 1] == p || files[n - 1] != p);
    }
}

/// A pass pulls every peer's database in the folder and no other: never one that this device's own
/// id occurs in, and never one at a depth where no device puts one.
pub proof fn a_pass_pulls_from_every_peer(
    files: Seq<PathV>,
    root_len: int,
    device: Seq<char>,
    under: Option<Seq<Seq<char>>>,
    mode: SyncMode,
    p: PathV,
)
    requires
        mode == SyncMode::Pull || mode == SyncMode::Both,
    ensures
        ({
            let remotes = arranged::<PathEntry>(
                peer_files(files, root_len, device, under, files.len() as int),
            );
            let pulled = legs(remotes, device, mode);
            &&& remotes.contains(p) <==> files.contains(p) && from_peer(p, root_len, device, under)
            &&& remotes.contains(p) ==> pulled.contains(
                TransferV::Pull(p.path, origin_in(p.parts)),
            )
            &&& forall|i: int|
                0 <= i < pulled.len() && (#[trigger] pulled[i]) is Pull ==> i < remotes.len()
                    && pulled[i] == TransferV::Pull(remotes[i].path, origin_in(remotes[i].parts))
        }),
{
    let found = peer_files(files, root_len, device, under, files.len() as int);
    let remotes = arranged::<PathEntry>(found);
    let pulled = legs(remotes, device, mode);
    arranged_contains::<PathEntry>(found, p);
    peer_files_are_peers(files, root_len, device, under, files.len() as int, p);
    if remotes.contains(p) {
        let k = choose|k: int| 0 <= k < remotes.len() && remotes[k] == p;
        assert(pulled[k] == TransferV::Pull(p.path, origin_in(p.parts)));
    }
}

/// The hosts among the first `n` files that have a database two directories below the root, each
/// once.
pub open spec fn hosts_in(files: Seq<PathV>, root_len: int, n: int) -> Seq<Seq<char>>
    decreases n,
{
    if n <= 0 {
        Seq::empty()
    } else {
        let rest = hosts_in(files, root_len, n - 1);
        let parts = files[n - 1].parts;
        if parts.len() == root_len + 3 && is_database(parts.last()) && !rest.contains(
            parts[root_len],
        ) {
            rest.push(parts[root_len])
        } else {
            rest
        }
    }
}

/// The hosts that have a database in the folder, laid out as `<root>/<host>/<device>/<file>.db`.
pub fn get_remotes(files: &Vec<PathEntry>, root_len: usize) -> (r: Vec<String>)
    ensures
        r.deep_view() == hosts_in(files.deep_view(), root_len as int, files.len() as int),
{
    let ghost fv = files.deep_view();
    let mut out: Vec<String> = Vec::new();
    assert(out.deep_view() =~= Seq::empty());
    let mut i: usize = 0;
    while i < files.len()
        invariant
            i <= files.len(),
            fv == files.deep_view(),
            out.deep_view() == hosts_in(fv, root_len as int, i as int),
        decreases files.len() - i,
    {
        assert(fv[i as int] == files@[i as int].deep_view());
        let parts = &files[i].parts;
        let n: usize = parts.len();
        assert(fv[i as int].parts.len() == n);
        if n > root_len && n - root_len == 3 {
            assert(fv[i as int].parts[n - 1] == parts@[n - 1]@);
            assert(fv[i as int].parts[root_len as int] == parts@[root_len as int]@);
            if has_db_extension(parts[n - 1].as_str()) && !list::contains_text(
                &out,
                &parts[root_len],
            ) {
                list::push(&mut out, parts[root_len].clone());
            }
        }
        i = i + 1;
    }
    out
}

/// Whether a file is a database of one of `host`'s devices: `<root>/<host>/<device>/<file>.db`.
pub open spec fn belongs_to(file: PathV, root_len: int, host: Seq<char>) -> bool {
    file.parts.len() == root_len + 3 && is_database(file.parts.last()) && file.parts[root_len]
        == host
}

/// The databases of `host`'s devices among the first `n` files.
pub open spec fn databases_of(files: Seq<PathV>, root_len: int, host: Seq<char>, n: int) -> Seq<
    PathV,
>
    decreases n,
{
    if n <= 0 {
        Seq::empty()
    } else {
        let rest = databases_of(files, root_len, host, n - 1);
        if belongs_to(files[n - 1], root_len, host) {
            rest.push(files[n - 1])
        } else {
            rest
        }
    }
}

/// The databases to pull from a host. Each belongs to a different device, so all of them are
/// pulled.
pub fn host_databases(files: &Vec<PathEntry>, root_len: usize, host: &str) -> (r: Vec<PathEntry>)
    ensures
        r.deep_view() == databases_of(
            files.deep_view(),
            root_len as int,
            host@,
            files.len() as int,
        ),
{
    let ghost fv = files.deep_view();
    let mut out: Vec<PathEntry> = Vec::new();
    assert(out.deep_view() =~= Seq::empty());
    let mut i: usize = 0;
    while i < files.len()
        invariant
            i <= files.len(),
            fv == files.deep_view(),
            out.deep_view() == databases_of(fv, root_len as int, host@, i as int),
        decreases files.len() - i,
    {
        assert(fv[i as int] == files@[i as int].deep_view());
        let parts = &files[i].parts;
        let ghost pv = parts.deep_view();
        let n: usize = parts.len();
        assert(pv.len() == n);
        if n >= 3 && n - 3 == root_len {
            assert(pv.last() == parts@[n - 1]@);
            assert(pv[root_len as int] == parts@[root_len as int]@);
            if has_db_extension(parts[n - 1].as_str()) && text::same(parts[root_len].as_str(), host) {
                list::push(&mut out, files[i].clone());
            }
        }
        i = i + 1;
    }
    out
}

/// A host is listed among the remotes just where there is a database to pull from it.
pub proof fn every_remote_has_a_database(
    files: Seq<PathV>,
    root_len: int,
    host: Seq<char>,
    n: int,
)
    requires
        0 <= n <= files.len(),
    ensures
        hosts_in(files, root_len, n).contains(host) <==> databases_of(
            files,
            root_len,
            host,
            n,
        ).len() > 0,
    decreases n,
{
    if n > 0 {
        every_remote_has_a_database(files, root_len, host, n - 1);
        let before = hosts_in(files, root_len, n - 1);
        let now = hosts_in(files, root_len, n);
        if now != before {
            assert forall|h: Seq<char>| now.contains(h) <==> (before.contains(h) || h
                == files[n - 1].parts[root_len]) by {
                if before.contains(h) {
                    let k = choose|k: int| 0 <= k < before.len() && before[k] == h;
                    assert(now[k] == h);
                }
                assert(now[before.len() as int] == files[n - 1].parts[root_len]);
            }
        }
    }
}

/// What a sync needs to know of the server it talks to.
#[derive(Debug)]
pub struct ServerConfig {
    pub port: u16,
    pub api_key: Option<String>,
}

#[verifier::ext_equal]
pub struct ServerConfigV {
    pub port: u16,
    pub api_key: Option<Seq<char>>,
}

impl DeepView for ServerConfig {
    type V = ServerConfigV;

    open spec fn deep_view(&self) -> ServerConfigV {
        ServerConfigV { port: self.port, api_key: self.api_key.deep_view() }
    }
}

/// The port a server listens on where nothing says otherwise.
pub open spec fn default_port(testing: bool) -> u16 {
    if testing {
        5666
    } else {
        5600
    }
}

impl ServerConfig {
    pub fn default_for(testing: bool) -> (r: ServerConfig)
        ensures
            r.deep_view() == (ServerConfigV { port: default_port(testing), api_key: None }),
    {
        ServerConfig {
            port: if testing {
                5666
            } else {
                5600
            },
            api_key: None,
        }
    }
}

/// A TOML value. A float and a date keep the text they are written with.
#[derive(Debug)]
pub enum Toml {
    Text(String),
    Integer(i64),
    Float(String),
    Bool(bool),
    Datetime(String),
    Array(Vec<Toml>),
    Table(Vec<TomlEntry>),
}

/// One entry of a TOML table.
#[derive(Debug)]
pub struct TomlEntry {
    pub key: String,
    pub value: Toml,
}

/// A value of toml.
#[verifier::external_type_specification]
#[verifier::external_body]
pub struct ExToml(toml::Value);

/// What `toml::from_str` reads in a text, or its message where the text is no TOML.
pub uninterp spec fn toml_document(text: Seq<char>) -> Result<Toml, Seq<char>>;

/// A `toml::Value`, variant for variant, as a plain tree.
#[verifier::external_body]
fn plain(value: toml::Value) -> Toml {
    match value {
        toml::Value::String(s) => Toml::Text(s),
        toml::Value::Integer(n) => Toml::Integer(n),
        toml::Value::Float(x) => Toml::Float(x.to_string()),
        toml::Value::Boolean(b) => Toml::Bool(b),
        toml::Value::Datetime(d) => Toml::Datetime(d.to_string()),
        toml::Value::Array(items) => Toml::Array(items.into_iter().map(plain).collect()),
        toml::Value::Table(entries) => Toml::Table(
            entries.into_iter().map(|(key, value)| TomlEntry { key, value: plain(value) }).collect(),
        ),
    }
}

/// `toml::from_str` into a `toml::Value`. What it reads, or its message, follows from the text
/// alone.
#[verifier::external_body]
fn read_toml(text: &str) -> (r: Result<Toml, String>)
    ensures
        toml_document(text@) == match r {
            Ok(value) => Ok(value),
            Err(e) => Err(e@),
        },
{
    match toml::from_str::<toml::Value>(text) {
        Ok(value) => Ok(plain(value)),
        Err(e) => Err(e.to_string()),
    }
}

/// The first entry named `key` from position `i` on.
pub open spec fn entry_from(entries: Seq<TomlEntry>, key: Seq<char>, i: int) -> Option<Toml>
    decreases entries.len() - i,
{
    if i < 0 || i >= entries.len() {
        None
    } else if entries[i].key@ == key {
        Some(entries[i].value)
    } else {
        entry_from(entries, key, i + 1)
    }
}

/// The entry of `value` named `key`; nothing where `value` is no table or has none of that name.
pub open spec fn entry(value: Toml, key: Seq<char>) -> Option<Toml> {
    match value {
        Toml::Table(entries) => entry_from(entries@, key, 0),
        _ => None,
    }
}

impl Toml {
    /// The entry named `key`.
    pub fn get(&self, key: &str) -> (r: Option<&Toml>)
        ensures
            r == match entry(*self, key@) {
                Some(v) => Some(&v),
                None => None,
            },
    {
        match self {
            Toml::Table(entries) => {
                let mut i: usize = 0;
                while i < entries.len()
                    invariant
                        i <= entries.len(),
                        entry(*self, key@) == entry_from(entries@, key@, i as int),
                    decreases entries.len() - i,
                {
                    if text::same(entries[i].key.as_str(), key) {
                        return Some(&entries[i].value);
                    }
                    i = i + 1;
                }
                None
            },
            _ => None,
        }
    }
}

/// The integer `port` of a configuration.
pub open spec fn port_in(value: Toml) -> Option<i64> {
    match entry(value, "port"@) {
        Some(Toml::Integer(n)) => Some(n),
        _ => None,
    }
}

/// The string `api_key` in the table `auth` of a configuration.
pub open spec fn api_key_in(value: Toml) -> Option<Seq<char>> {
    match entry(value, "auth"@) {
        Some(auth) => match entry(auth, "api_key"@) {
            Some(Toml::Text(s)) => Some(s@),
            _ => None,
        },
        None => None,
    }
}

/// The configuration that the fields say: a port that is none falls back to the default, and an
/// empty key is none.
pub open spec fn config_of(port: Option<i64>, api_key: Option<Seq<char>>, testing: bool) -> ServerConfigV {
    ServerConfigV {
        port: match port {
            Some(p) => if 0 <= p <= u16::MAX {
                p as u16
            } else {
                default_port(testing)
            },
            None => default_port(testing),
        },
        api_key: match api_key {
            Some(k) => if k.len() > 0 {
                Some(k)
            } else {
                None
            },
            None => None,
        },
    }
}

/// The configuration that a TOML value says.
pub fn config_from(value: &Toml, testing: bool) -> (r: ServerConfig)
    ensures
        r.deep_view() == config_of(port_in(*value), api_key_in(*value), testing),
{
    let fallback = ServerConfig::default_for(testing);
    let port: u16 = match value.get("port") {
        Some(Toml::Integer(p)) => if 0 <= *p && *p <= u16::MAX as i64 {
            *p as u16
        } else {
            fallback.port
        },
        _ => fallback.port,
    };
    let api_key = match value.get("auth") {
        Some(auth) => match auth.get("api_key") {
            Some(Toml::Text(k)) => if k.as_str().is_empty() {
                None
            } else {
                Some(k.clone())
            },
            _ => None,
        },
        None => None,
    };
    ServerConfig { port, api_key }
}

/// The settings needed from a server's configuration file; the defaults where there is none.
pub fn get_server_config(contents: Option<&str>, testing: bool) -> (r: Result<ServerConfig, String>)
    ensures
        match contents {
            None => r matches Ok(c) && c.deep_view() == config_of(None, None, testing),
            Some(text) => match toml_document(text@) {
                Ok(v) => r matches Ok(c) && c.deep_view() == config_of(
                    port_in(v),
                    api_key_in(v),
                    testing,
                ),
                Err(e) => r matches Err(m) && m@ == e,
            },
        },
{
    match contents {
        None => Ok(ServerConfig::default_for(testing)),
        Some(text) => match read_toml(text) {
            Ok(value) => Ok(config_from(&value, testing)),
            Err(e) => Err(e),
        },
    }
}

/// What a host is, as an address.
#[derive(Clone, Copy, Debug, PartialEq, Eq, Structural)]
pub enum HostAddress {
    /// A name, not an address.
    Name,
    V4 { loopback: bool },
    V6 { loopback: bool },
}

/// A character in lower case, where it is an ASCII letter.
pub open spec fn ascii_lower(c: char) -> char {
    if 'A' <= c && c <= 'Z' {
        (c as u32 + 32) as char
    } else {
        c
    }
}

/// Whether two texts are the same but for the case of ASCII letters.
pub open spec fn same_but_case(a: Seq<char>, b: Seq<char>) -> bool {
    a.len() == b.len() && forall|i: int|
        0 <= i < a.len() ==> ascii_lower(#[trigger] a[i]) == ascii_lower(b[i])
}

fn to_lower(c: char) -> (r: char)
    ensures
        r == ascii_lower(c),
{
    if 'A' <= c && c <= 'Z' {
        (c as u8 + 32) as char
    } else {
        c
    }
}

fn eq_ignoring_case(a: &str, b: &str) -> (r: bool)
    ensures
        r == same_but_case(a@, b@),
{
    let x = text::characters(a);
    let y = text::characters(b);
    if x.len() != y.len() {
        return false;
    }
    let mut i: usize = 0;
    while i < x.len()
        invariant
            x@ == a@,
            y@ == b@,
            x.len() == y.len(),
            i <= x.len(),
            forall|k: int| 0 <= k < i ==> ascii_lower(#[trigger] x@[k]) == ascii_lower(y@[k]),
        decreases x.len() - i,
    {
        if to_lower(x[i]) != to_lower(y[i]) {
            assert(ascii_lower(a@[i as int]) != ascii_lower(b@[i as int]));
            return false;
        }
        i = i + 1;
    }
    true
}

/// Whether a host is this machine. Local configuration must never be read for any other target.
pub fn is_loopback_host(host: &str, address: HostAddress) -> (r: bool)
    ensures
        r == (same_but_case(host@, "localhost"@) || address == (HostAddress::V4 {
            loopback: true,
        }) || address == (HostAddress::V6 { loopback: true })),
{
    eq_ignoring_case(host, "localhost") || match address {
        HostAddress::Name => false,
        HostAddress::V4 { loopback } => loopback,
        HostAddress::V6 { loopback } => loopback,
    }
}

/// A host as a URL writes it: with brackets around a bare IPv6 address.
pub fn host_for_url(host: &str, address: HostAddress) -> (r: String)
    ensures
        r@ == if address is V6 {
            "["@ + host@ + "]"@
        } else {
            host@
        },
{
    match address {
        HostAddress::V6 { .. } => {
            let mut out = "[".to_owned();
            out.append(host);
            out.append("]");
            out
        },
        _ => host.to_owned(),
    }
}

} // verus!
