//! What is found in the shared folder, and what a pass does with it.

use vstd::prelude::*;

use crate::decision::value_in;
use crate::json::Json;
use crate::list;
use crate::order::{arranged, arranged_contains, arranged_in_order, arranged_keeps, Sortable};
use crate::remotes::{
    a_pass_pulls_from_every_peer, api_key_in, ascii_lower, config_of, databases_of, entry,
    from_peer, hosts_in, legs, parts_before, peer_files, port_in, same_but_case, PathEntry, PathV, Toml, TransferV,
};
use crate::sync::SyncMode;
use crate::sync_setup::{
    default_parts, devices_of, dir_in, hidden, is_database, last_said, moved, newest_copies,
    peer_of, peers_found, plural, sentence, synced_in, went_well, written_after, FoundV, PassOutcome, Peer, PeerV,
};
use crate::text;

verus! {

/// Whether a file is named as a database is: some name, with `.db` behind it.
pub open spec fn named_db(name: Seq<char>) -> bool {
    name.len() > 3 && name.skip(name.len() - 3) == ".db"@
}

proof fn databases_are_named_db(name: Seq<char>)
    ensures
        is_database(name) == named_db(name),
{
    reveal_strlit(".db");
    assert(".db"@.len() == 3);
    if name.len() >= 3 {
        assert(name.skip(name.len() - 3) =~= name.subrange(name.len() - 3, name.len() as int));
    }
}

/// Whether a text stands in another.
pub open spec fn stands_in(s: Seq<char>, part: Seq<char>) -> bool {
    exists|i: int| #[trigger] stands_at(s, part, i)
}

pub open spec fn stands_at(s: Seq<char>, part: Seq<char>, i: int) -> bool {
    0 <= i && i + part.len() <= s.len() && s.subrange(i, i + part.len()) == part
}

proof fn occurring_is_standing(s: Seq<char>, part: Seq<char>)
    ensures
        text::first_occurrence(s, part) is Some <==> stands_in(s, part),
{
    text::find_from_sound(s, part, 0);
    if let Some(i) = text::first_occurrence(s, part) {
        assert(stands_at(s, part, i));
    }
    if stands_in(s, part) {
        let i = choose|i: int| #[trigger] stands_at(s, part, i);
        assert(text::occurs_at(s, part, i));
    }
}

/// Whether a file is the database of a peer: one or two directories below the root, its path not
/// naming this device, and below the path that is asked for where one is.
pub open spec fn peers_database(
    p: PathV,
    root_len: int,
    device: Seq<char>,
    under: Option<Seq<Seq<char>>>,
) -> bool {
    &&& p.parts.len() == root_len + 2 || p.parts.len() == root_len + 3
    &&& p.parts.len() > 0
    &&& named_db(p.parts.last())
    &&& !stands_in(p.path, device)
    &&& under is Some ==> under->0.len() <= p.parts.len() && p.parts.take(
        under->0.len() as int,
    ) == under->0
}

/// The device a database is of: the directory it lies in, where that has a name.
pub open spec fn owner_of(parts: Seq<Seq<char>>) -> Option<Seq<char>> {
    if parts.len() >= 2 && parts[parts.len() - 2].len() > 0 {
        Some(parts[parts.len() - 2])
    } else {
        None
    }
}

/// A pass pulls every peer's database, and nothing else, unless it only pushes; and then pushes this
/// device's own data, last and once, unless it only pulls.
pub proof fn a_pass_does_every_leg(
    files: Seq<PathV>,
    root_len: int,
    device: Seq<char>,
    under: Option<Seq<Seq<char>>>,
    mode: SyncMode,
    leg: TransferV,
)
    ensures
        ({
            let remotes = arranged::<PathEntry>(
                peer_files(files, root_len, device, under, files.len() as int),
            );
            let all = legs(remotes, device, mode);
            let pushes = mode == SyncMode::Push || mode == SyncMode::Both;
            let pulls = mode == SyncMode::Pull || mode == SyncMode::Both;
            &&& all.contains(leg) && leg is Pull <==> pulls && exists|k: int|
                0 <= k < files.len() && peers_database(
                    #[trigger] files[k],
                    root_len,
                    device,
                    under,
                ) && leg == TransferV::Pull(files[k].path, owner_of(files[k].parts))
            &&& pushes ==> all.len() > 0 && all.last() == TransferV::Push(device)
            &&& forall|i: int|
                0 <= i < all.len() && (#[trigger] all[i]) is Push ==> pushes && i == all.len() - 1
        }),
{
    let n = files.len() as int;
    let found = peer_files(files, root_len, device, under, n);
    let remotes = arranged::<PathEntry>(found);
    let all = legs(remotes, device, mode);
    let pulls = mode == SyncMode::Pull || mode == SyncMode::Both;
    assert forall|k: int| 0 <= k < n implies peers_database(
        #[trigger] files[k],
        root_len,
        device,
        under,
    ) == from_peer(files[k], root_len, device, under) by {
        occurring_is_standing(files[k].path, device);
        if files[k].parts.len() > 0 {
            databases_are_named_db(files[k].parts.last());
        }
    }
    if all.contains(leg) && leg is Pull {
        let i = choose|i: int| 0 <= i < all.len() && all[i] == leg;
        assert(remotes.contains(remotes[i]));
        a_pass_pulls_from_every_peer(files, root_len, device, under, SyncMode::Pull, remotes[i]);
        let k = choose|k: int| 0 <= k < n && files[k] == remotes[i];
        assert(peers_database(files[k], root_len, device, under));
    }
    if pulls && exists|k: int|
        0 <= k < n && peers_database(#[trigger] files[k], root_len, device, under) && leg
            == TransferV::Pull(files[k].path, owner_of(files[k].parts)) {
        let k = choose|k: int|
            0 <= k < n && peers_database(#[trigger] files[k], root_len, device, under) && leg
                == TransferV::Pull(files[k].path, owner_of(files[k].parts));
        assert(files.contains(files[k]));
        a_pass_pulls_from_every_peer(files, root_len, device, under, mode, files[k]);
    }
}

/// Whether a file is the database of a device of `host`: three below the root, the first of them the
/// host.
pub open spec fn of_host(root_len: int, host: Seq<char>) -> spec_fn(PathV) -> bool {
    |p: PathV|
        p.parts.len() == root_len + 3 && named_db(p.parts.last()) && p.parts[root_len] == host
}

/// The databases of a host are all those found of its devices, in the order they were found. A host
/// is listed just where it has one, and once.
pub proof fn a_host_has_all_its_databases(
    files: Seq<PathV>,
    root_len: int,
    host: Seq<char>,
    n: int,
)
    requires
        0 <= n <= files.len(),
        0 <= root_len,
    ensures
        databases_of(files, root_len, host, n) == files.take(n).filter(of_host(root_len, host)),
        hosts_in(files, root_len, n).no_duplicates(),
        hosts_in(files, root_len, n).contains(host) <==> exists|k: int|
            0 <= k < n && of_host(root_len, host)(#[trigger] files[k]),
    decreases n,
{
    reveal(Seq::filter);
    if n > 0 {
        a_host_has_all_its_databases(files, root_len, host, n - 1);
        assert(files.take(n).drop_last() =~= files.take(n - 1));
        let parts = files[n - 1].parts;
        if parts.len() == root_len + 3 {
            databases_are_named_db(parts.last());
        }
        let rest = hosts_in(files, root_len, n - 1);
        let all = hosts_in(files, root_len, n);
        if rest.contains(host) {
            let i = choose|i: int| 0 <= i < rest.len() && rest[i] == host;
            assert(all[i] == host);
        }
        if all.len() > rest.len() {
            assert(all[rest.len() as int] == parts[root_len]);
        }
        if all.contains(host) {
            let i = choose|i: int| 0 <= i < all.len() && all[i] == host;
            if i < rest.len() {
                assert(rest[i] == host);
                assert(rest.contains(host));
            } else {
                assert(of_host(root_len, host)(files[n - 1]));
            }
        }
    } else {
        assert(databases_of(files, root_len, host, n) =~= files.take(n).filter(
            of_host(root_len, host),
        ));
    }
}

/// A server listens where its configuration says, if that is a port, and else where servers do by
/// default; it asks for a key where the configuration has one that is not empty.
pub proof fn a_server_listens_where_it_is_told(value: Toml, testing: bool)
    ensures
        ({
            let c = config_of(port_in(value), api_key_in(value), testing);
            let port = entry(value, "port"@);
            let told = port matches Some(Toml::Integer(n)) && 0 <= n <= 65_535;
            &&& told ==> c.port == port->0->Integer_0
            &&& !told ==> c.port == if testing {
                5666u16
            } else {
                5600u16
            }
            &&& match entry(value, "auth"@) {
                Some(auth) => match entry(auth, "api_key"@) {
                    Some(Toml::Text(s)) => if s@.len() > 0 {
                        c.api_key == Some(s@)
                    } else {
                        c.api_key is None
                    },
                    _ => c.api_key is None,
                },
                None => c.api_key is None,
            }
        }),
{
}

/// Whether a row says of a device what one of its found files does: the file is a database in one or
/// two directories, none of them hidden; the inner one is the device, the outer one its host.
pub open spec fn row_of_file(p: PeerV, f: FoundV, own: Seq<char>) -> bool {
    let n = f.trail.len() as int;
    &&& named_db(f.name)
    &&& n == 1 || n == 2
    &&& forall|i: int| 0 <= i < n ==> !((#[trigger] f.trail[i]).len() > 0 && f.trail[i][0] == '.')
    &&& p.device_id == f.trail[n - 1]
    &&& p.hostname == if n == 2 {
        Some(f.trail[0])
    } else {
        None
    }
    &&& p.last_modified == f.last_modified
    &&& p.size_bytes == f.size_bytes
    &&& p.is_own == (f.trail[n - 1] == own)
}

/// Whether one file was written after another. One whose time is not known is older than any other.
pub open spec fn is_later(a: Option<int>, b: Option<int>) -> bool {
    a is Some && (b is None || a->0 > b->0)
}

proof fn rows_are_of_files(f: FoundV, own: Seq<char>, p: PeerV)
    ensures
        peer_of(f, own) == Some(p) <==> row_of_file(p, f, own),
{
    databases_are_named_db(f.name);
    reveal_strlit(".");
    assert forall|s: Seq<char>| #[trigger] hidden(s) == (s.len() > 0 && s[0] == '.') by {
        if s.len() > 0 {
            assert(s.subrange(0, 1) =~= seq![s[0]]);
            assert("."@ =~= seq!['.']);
        }
        if s.len() > 0 && hidden(s) {
            assert(s.subrange(0, 1)[0] == '.');
        }
    }
    if row_of_file(p, f, own) {
        assert forall|i: int| 0 <= i < f.trail.len() implies !hidden(#[trigger] f.trail[i]) by {}
        assert(p =~= peer_of(f, own)->0);
    }
    if peer_of(f, own) == Some(p) {
        assert forall|i: int| 0 <= i < f.trail.len() implies !((#[trigger] f.trail[i]).len() > 0
            && f.trail[i][0] == '.') by {
            assert(!hidden(f.trail[i]));
        }
    }
}

proof fn found_hold(files: Seq<FoundV>, own: Seq<char>, n: int, p: PeerV)
    requires
        0 <= n <= files.len(),
    ensures
        peers_found(files, own, n).contains(p) <==> exists|k: int|
            0 <= k < n && row_of_file(p, #[trigger] files[k], own),
    decreases n,
{
    if n > 0 {
        found_hold(files, own, n - 1, p);
        rows_are_of_files(files[n - 1], own, p);
        let rest = peers_found(files, own, n - 1);
        let all = peers_found(files, own, n);
        if all.contains(p) {
            let i = choose|i: int| 0 <= i < all.len() && all[i] == p;
            if i < rest.len() {
                assert(rest[i] == p);
                assert(rest.contains(p));
            }
        }
        if rest.contains(p) {
            let i = choose|i: int| 0 <= i < rest.len() && rest[i] == p;
            assert(all[i] == p);
        }
        if peer_of(files[n - 1], own) == Some(p) {
            assert(all[rest.len() as int] == p);
        }
    }
}

/// Every row of the setup page is of a file that was found, and no other file of that device was
/// written after it; every device with such a file has its row. This device comes first, then no
/// host before any, then by host.
pub proof fn every_device_in_the_folder_has_its_row(files: Seq<FoundV>, own: Seq<char>)
    ensures
        ({
            let rows = devices_of(files, own);
            &&& forall|r: int| #![trigger rows[r]]
                0 <= r < rows.len() ==> exists|k: int|
                    0 <= k < files.len() && row_of_file(rows[r], #[trigger] files[k], own)
            &&& forall|k: int, p: PeerV|
                0 <= k < files.len() && #[trigger] row_of_file(p, files[k], own) ==> exists|r: int|
                    0 <= r < rows.len() && (#[trigger] rows[r]).device_id == p.device_id
                        && !is_later(p.last_modified, rows[r].last_modified)
            &&& forall|a: int, b: int|
                0 <= a < b < rows.len() && (#[trigger] rows[b]).is_own ==> (
                #[trigger] rows[a]).is_own
        }),
{
    let n = files.len() as int;
    let found = peers_found(files, own, n);
    let copies = newest_copies(found, found.len() as int);
    let rows = devices_of(files, own);
    crate::sync_setup::one_device_is_one_row(files, own);
    arranged_in_order::<Peer>(copies);
    assert forall|r: int| #![trigger rows[r]] 0 <= r < rows.len() implies exists|k: int|
        0 <= k < files.len() && row_of_file(rows[r], #[trigger] files[k], own) by {
        arranged_contains::<Peer>(copies, rows[r]);
        assert(rows.contains(rows[r]));
        copies_are_found(found, found.len() as int, rows[r]);
        found_hold(files, own, n, rows[r]);
    }
    assert forall|k: int, p: PeerV|
        0 <= k < files.len() && #[trigger] row_of_file(p, files[k], own) implies exists|r: int|
        0 <= r < rows.len() && (#[trigger] rows[r]).device_id == p.device_id && !is_later(
            p.last_modified,
            rows[r].last_modified,
        ) by {
        found_hold(files, own, n, p);
        let i = choose|i: int| 0 <= i < found.len() && found[i] == p;
        assert(crate::sync_setup::lists_newest(rows, found[i]));
        let r = choose|r: int|
            0 <= r < rows.len() && (#[trigger] rows[r]).device_id == p.device_id && !written_after(
                p,
                rows[r],
            );
        assert(!is_later(p.last_modified, rows[r].last_modified));
    }
    assert forall|a: int, b: int| 0 <= a < b < rows.len() && (#[trigger] rows[b]).is_own implies (
    #[trigger] rows[a]).is_own by {
        assert(!<Peer as Sortable>::precedes(rows[b], rows[a]));
    }
}

proof fn copies_are_found(found: Seq<PeerV>, n: int, p: PeerV)
    requires
        0 <= n <= found.len(),
        newest_copies(found, n).contains(p),
    ensures
        found.contains(p),
    decreases n,
{
    let all = newest_copies(found, n);
    let i = choose|i: int| 0 <= i < all.len() && all[i] == p;
    if n > 0 {
        let rest = newest_copies(found, n - 1);
        if i < rest.len() {
            assert(rest[i] == p);
            copies_are_found(found, n - 1, p);
        } else {
            assert(found[n - 1] == p);
        }
    }
}

/// The events that a line of a log reports.
pub open spec fn events_reported() -> spec_fn(Seq<char>) -> int {
    |line: Seq<char>|
        match synced_in(line) {
            Some(v) => v,
            None => 0,
        }
}

/// Whether a line of a log reports any events.
pub open spec fn reports_any() -> spec_fn(Seq<char>) -> bool {
    |line: Seq<char>| synced_in(line) is Some && synced_in(line)->0 > 0
}

/// A log moved as many events as all its lines report, across as many buckets as lines report any.
pub proof fn a_log_moved_what_its_lines_report(lines: Seq<Seq<char>>, n: int)
    requires
        0 <= n <= lines.len(),
    ensures
        moved(lines, n).0 == list::sum(lines, events_reported(), n),
        moved(lines, n).1 == lines.take(n).filter(reports_any()).len(),
    decreases n,
{
    reveal(Seq::filter);
    if n > 0 {
        a_log_moved_what_its_lines_report(lines, n - 1);
        assert(lines.take(n).drop_last() =~= lines.take(n - 1));
        assert(crate::sync_setup::synced_in(lines[n - 1]) matches Some(v) ==> v >= 0) by {
            reports_are_counts(lines[n - 1]);
        }
    }
}

proof fn reports_are_counts(line: Seq<char>)
    ensures
        synced_in(line) matches Some(v) ==> 0 <= v <= u64::MAX,
{
    if let Some(i) = text::first_occurrence(line, "Synced "@) {
        let rest = line.skip(i + "Synced "@.len());
        let piece = match text::first_occurrence(rest, "Synced "@) {
            Some(j) => rest.take(j),
            None => rest,
        };
        if let Some(w) = text::first_word(piece) {
            text::unsigned_is_positive(w);
        }
    }
}

/// What a failed pass is said to have failed with is the last line of its log that is not blank.
pub proof fn the_last_words_are_what_is_said(lines: Seq<Seq<char>>, n: int)
    requires
        0 <= n <= lines.len(),
    ensures
        match last_said(lines, n) {
            Some(line) => exists|k: int|
                0 <= k < n && #[trigger] lines[k] == line && text::trimmed(line).len() > 0 && forall|
                    j: int,
                |
                    k < j < n ==> text::trimmed(#[trigger] lines[j]).len() == 0,
            None => forall|k: int| 0 <= k < n ==> text::trimmed(#[trigger] lines[k]).len() == 0,
        },
    decreases n,
{
    if n > 0 {
        the_last_words_are_what_is_said(lines, n - 1);
        if text::trimmed(lines[n - 1]).len() > 0 {
            assert(lines[n - 1] == lines[n - 1]);
        }
    }
}

/// The rows of a folder are listed this device first, then by host, those without one before all
/// others, and of one host by device.
pub proof fn devices_are_listed_by_host(files: Seq<FoundV>, own: Seq<char>, a: int, b: int)
    requires
        0 <= a < b < devices_of(files, own).len(),
        devices_of(files, own)[a].is_own == devices_of(files, own)[b].is_own,
    ensures
        ({
            let (x, y) = (devices_of(files, own)[a], devices_of(files, own)[b]);
            match (x.hostname, y.hostname) {
                (None, None) => text::before(x.device_id, y.device_id),
                (None, Some(_)) => true,
                (Some(_), None) => false,
                (Some(g), Some(h)) => if g == h {
                    text::before(x.device_id, y.device_id)
                } else {
                    text::before(g, h)
                },
            }
        }),
{
    let found = peers_found(files, own, files.len() as int);
    let rows = devices_of(files, own);
    arranged_in_order::<Peer>(newest_copies(found, found.len() as int));
    crate::sync_setup::one_device_is_one_row(files, own);
    let (x, y) = (rows[a], rows[b]);
    assert(!<Peer as Sortable>::precedes(y, x));
    text::before_is_total_order(x.device_id, y.device_id, y.device_id);
    if x.hostname is Some && y.hostname is Some {
        text::before_is_total_order(x.hostname->0, y.hostname->0, y.hostname->0);
    }
}

/// A line that says `Synced` and then a number reports that many events, whatever stands before and
/// behind, as long as it does not say so before. The number ends at a space, or where the line says
/// so again.
pub proof fn a_line_reports_the_number_it_names(
    pre: Seq<char>,
    n: nat,
    sep: Seq<char>,
    post: Seq<char>,
)
    requires
        n <= u64::MAX,
        sep == " "@ || sep == "Synced "@,
        forall|i: int|
            0 <= i < pre.len() ==> !#[trigger] stands_at(
                pre + "Synced "@ + text::decimal(n) + sep + post,
                "Synced "@,
                i,
            ),
    ensures
        synced_in(pre + "Synced "@ + text::decimal(n) + sep + post) == Some(n as int),
{
    let key = "Synced "@;
    let digits = text::decimal(n);
    let line = pre + key + digits + sep + post;
    let i = pre.len() as int;
    reveal_strlit("Synced ");
    reveal_strlit(" ");
    crate::text_laws::a_number_reads_back(n);
    assert(line.subrange(i, i + key.len()) =~= key);
    assert(text::occurs_at(line, key, i));
    text::find_from_sound(line, key, 0);
    if let Some(k) = text::first_occurrence(line, key) {
        if k < i {
            assert(stands_at(line, key, k));
        }
    }
    assert(text::first_occurrence(line, key) == Some(i));
    let rest = line.skip(i + key.len());
    assert(rest =~= digits + sep + post);
    text::find_from_sound(rest, key, 0);
    let piece = match text::first_occurrence(rest, key) {
        Some(j) => rest.take(j),
        None => rest,
    };
    let m = digits.len() as int;
    assert(rest[m] == sep[0]);
    if sep == key {
        assert(rest.subrange(m, m + key.len()) =~= key);
        assert(text::occurs_at(rest, key, m));
    }
    if let Some(j) = text::first_occurrence(rest, key) {
        assert(rest.subrange(j, j + key.len())[0] == rest[j]);
        assert(rest[j] == 'S');
        if j < m {
            assert(rest[j] == digits[j]);
            assert(text::digit(digits[j]));
        }
        assert(j >= m);
    }
    assert(piece.len() >= m);
    assert forall|k: int| 0 <= k < m implies piece[k] == digits[k] && !text::white(piece[k]) by {
        assert(text::digit(digits[k]));
        assert(rest[k] == digits[k]);
    }
    assert(sep == " "@ ==> piece.len() > m && piece[m] == ' ');
    assert(sep == key ==> piece.len() == m);
    assert(!text::white(piece[0]));
    assert(text::trim_left(piece) == piece);
    word_stops(piece, 0, m);
    assert(piece.take(m) =~= digits);
}

proof fn word_stops(s: Seq<char>, i: int, m: int)
    requires
        0 <= i <= m <= s.len(),
        m < s.len() ==> text::white(s[m]),
        forall|k: int| 0 <= k < m ==> !text::white(s[k]),
    ensures
        text::word_end(s, i) == m,
    decreases m - i,
{
    if i < m {
        word_stops(s, i + 1, m);
    }
}

/// A pass that moved nothing is up to date; one that moved something says how many events and how
/// many buckets, one of them as one.
pub proof fn a_pass_says_how_much_it_moved(events: nat, buckets: nat)
    ensures
        sentence(0, buckets as int) == "Already up to date."@,
        events > 0 ==> sentence(events as int, buckets as int) == "Synced "@ + text::decimal(events)
            + (if events == 1 {
            " event across "@
        } else {
            " events across "@
        }) + text::decimal(buckets) + (if buckets == 1 {
            " bucket."@
        } else {
            " buckets."@
        }),
{
    reveal_strlit(" event");
    reveal_strlit("s");
    reveal_strlit(" across ");
    reveal_strlit(" event across ");
    reveal_strlit(" events across ");
    reveal_strlit(" bucket");
    reveal_strlit(".");
    reveal_strlit(" bucket.");
    reveal_strlit(" buckets.");
    let (e, b) = (text::decimal(events), text::decimal(buckets));
    let said = sentence(events as int, buckets as int);
    if events == 1 {
        assert(" event"@ + Seq::<char>::empty() + " across "@ =~= " event across "@);
    } else {
        assert(" event"@ + "s"@ + " across "@ =~= " events across "@);
    }
    if buckets == 1 {
        assert(" bucket"@ + Seq::<char>::empty() + "."@ =~= " bucket."@);
    } else {
        assert(" bucket"@ + "s"@ + "."@ =~= " buckets."@);
    }
    if events > 0 {
        let across = " event"@ + plural(events as int) + " across "@;
        let end = " bucket"@ + plural(buckets as int) + "."@;
        assert(said =~= "Synced "@ + e + across + b + end);
    }
}

/// A stored folder is never blank. A JSON string that is not blank is the folder as it stands in it;
/// any other text that is not blank is the folder itself, without the white space around it.
pub proof fn a_folder_is_the_one_that_is_stored(raw: Seq<char>, json: Json)
    requires
        value_in(raw) == Some(json) || value_in(raw) is None,
    ensures
        dir_in(raw) matches Some(dir) ==> text::trimmed(dir).len() > 0,
        value_in(raw) matches Some(Json::Text(s)) ==> text::trimmed(s@).len() > 0 ==> dir_in(raw)
            == Some(s@),
        (value_in(raw) is None || !(value_in(raw)->0 is Text)) && text::trimmed(raw).len() > 0
            ==> dir_in(raw) == Some(text::trimmed(raw)),
        value_in(raw) is None && text::trimmed(raw).len() == 0 ==> dir_in(raw) is None,
{
    let t = text::trimmed(raw);
    crate::text_laws::trimming_takes_off_the_white_space_around(raw);
    if t.len() > 0 {
        assert(text::trim_left(t) == t);
        assert(text::trim_right(t) == t);
    }
}

/// The default folder lies in the documents of the home directory, or of the current one where there
/// is no home.
pub proof fn the_default_folder_is_in_the_documents(home: Option<Seq<Seq<char>>>)
    ensures
        ({
            let parts = default_parts(home);
            let n = parts.len() as int;
            &&& n >= 2
            &&& parts[n - 1] == "ActivityWatch-sync"@
            &&& parts[n - 2] == "Documents"@
            &&& parts.take(n - 2) == match home {
                Some(h) => h,
                None => seq!["."@],
            }
        }),
{
    let parts = default_parts(home);
    let base = match home {
        Some(h) => h,
        None => seq!["."@],
    };
    assert(parts.take(parts.len() - 2) =~= base);
}

/// Only a pass that ran to its end, and a request that joined one under way, went well.
pub proof fn a_pass_went_well_where_it_finished(outcome: PassOutcome)
    ensures
        went_well(outcome) <==> match outcome {
            PassOutcome::AlreadyRunning | PassOutcome::Finished(_) => true,
            PassOutcome::NotInstalled
            | PassOutcome::NoFolder(_, _)
            | PassOutcome::Failed(_)
            | PassOutcome::NotStarted(_) => false,
        },
{
}

/// Two texts are the same but for case just where they agree at every position, or have there the
/// two cases of one ASCII letter.
pub proof fn case_is_of_letters_alone(a: Seq<char>, b: Seq<char>)
    ensures
        same_but_case(a, b) <==> a.len() == b.len() && forall|i: int|
            0 <= i < a.len() ==> same_letter(#[trigger] a[i], b[i]),
{
    assert forall|x: char, y: char| (ascii_lower(x) == ascii_lower(y)) == #[trigger] same_letter(
        x,
        y,
    ) by {
    }
    if same_but_case(a, b) {
        assert forall|i: int| 0 <= i < a.len() implies same_letter(#[trigger] a[i], b[i]) by {
            assert(ascii_lower(a[i]) == ascii_lower(b[i]));
        }
    }
    if a.len() == b.len() && forall|i: int| 0 <= i < a.len() ==> same_letter(#[trigger] a[i], b[i]) {
        assert forall|i: int| 0 <= i < a.len() implies ascii_lower(#[trigger] a[i]) == ascii_lower(
            b[i],
        ) by {
            assert(same_letter(a[i], b[i]));
        }
    }
}

/// Whether two characters are one, or the two cases of one ASCII letter.
pub open spec fn same_letter(x: char, y: char) -> bool {
    let (m, n) = (x as int, y as int);
    m == n || (65 <= m <= 90 && n == m + 32) || (65 <= n <= 90 && m == n + 32)
}

/// Peers' databases are pulled in the order of their paths, component by component, each once for
/// each time it is found.
pub proof fn databases_are_pulled_by_path(
    files: Seq<PathV>,
    root_len: int,
    device: Seq<char>,
    under: Option<Seq<Seq<char>>>,
    a: int,
    b: int,
    i: int,
)
    ensures
        ({
            let found = peer_files(files, root_len, device, under, files.len() as int);
            let remotes = arranged::<PathEntry>(found);
            &&& found == files.filter(|p: PathV| from_peer(p, root_len, device, under))
            &&& remotes.to_multiset() == found.to_multiset()
            &&& 0 <= a < b < remotes.len() ==> ({
                let (x, y) = (remotes[a].parts, remotes[b].parts);
                0 <= i <= x.len() && i <= y.len() && x.take(i) == y.take(i) ==> {
                    &&& i < x.len() && i < y.len() && x[i] != y[i] ==> text::before(x[i], y[i])
                    &&& i == y.len() ==> x.len() == y.len()
                }
            })
        }),
{
    let found = peer_files(files, root_len, device, under, files.len() as int);
    let remotes = arranged::<PathEntry>(found);
    arranged_keeps::<PathEntry>(found);
    arranged_in_order::<PathEntry>(found);
    peers_are_filtered(files, root_len, device, under, files.len() as int);
    assert(files.take(files.len() as int) =~= files);
    if 0 <= a < b < remotes.len() {
        let (x, y) = (remotes[a].parts, remotes[b].parts);
        assert(!<PathEntry as Sortable>::precedes(remotes[b], remotes[a]));
        if 0 <= i <= x.len() && i <= y.len() && x.take(i) == y.take(i) {
            assert forall|k: int| 0 <= k < i implies x[k] == y[k] by {
                assert(x.take(i)[k] == x[k]);
                assert(y.take(i)[k] == y[k]);
            }
            same_parts_so_far(y, x, i);
            if i < x.len() && i < y.len() {
                text::before_is_total_order(x[i], y[i], y[i]);
            }
        }
    }
}

proof fn same_parts_so_far(a: Seq<Seq<char>>, b: Seq<Seq<char>>, i: int)
    requires
        0 <= i <= a.len(),
        i <= b.len(),
        forall|k: int| 0 <= k < i ==> a[k] == b[k],
    ensures
        parts_before(a, b, 0) == parts_before(a, b, i),
    decreases i,
{
    if i > 0 {
        same_parts_so_far(a, b, i - 1);
    }
}

proof fn peers_are_filtered(
    files: Seq<PathV>,
    root_len: int,
    device: Seq<char>,
    under: Option<Seq<Seq<char>>>,
    n: int,
)
    requires
        0 <= n <= files.len(),
    ensures
        peer_files(files, root_len, device, under, n) == files.take(n).filter(
            |p: PathV| from_peer(p, root_len, device, under),
        ),
    decreases n,
{
    reveal(Seq::filter);
    if n > 0 {
        peers_are_filtered(files, root_len, device, under, n - 1);
        assert(files.take(n).drop_last() =~= files.take(n - 1));
    } else {
        assert(files.take(n) =~= Seq::empty());
    }
}

} // verus!
