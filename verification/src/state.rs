//! Bookkeeping of a desktop node: the transfers shown to the user, the
//! history of finished ones, the user's settings and the devices found on
//! the local network.
use vstd::prelude::*;
use vstd::string::*;
use crate::cancel::CancelFlags;

verus! {

/// The TCP port a node listens on unless configured otherwise.
pub const DEFAULT_PORT: u16 = 8877;

/// The UDP port of the discovery service.
pub const DISCOVERY_PORT: u16 = 8879;

/// How many records the history keeps; the oldest ones are dropped.
pub const HISTORY_LIMIT: usize = 200;

/// A transfer shown to the user.
#[derive(Debug)]
pub struct TransferState {
    pub id: String,
    pub file_name: String,
    pub total: u64,
    pub sent: u64,
    /// One of "pending", "active", "completed", "cancelled", "failed".
    pub status: String,
    /// Milliseconds since the Unix epoch when the data started to flow.
    pub started_at: u64,
    /// Hex BLAKE3 digest of the received file, when known.
    pub file_hash: String,
}

impl Clone for TransferState {
    fn clone(&self) -> (t: Self)
        ensures
            t == *self,
    {
        TransferState {
            id: self.id.clone(),
            file_name: self.file_name.clone(),
            total: self.total,
            sent: self.sent,
            status: self.status.clone(),
            started_at: self.started_at,
            file_hash: self.file_hash.clone(),
        }
    }
}

pub open spec fn status_pending() -> Seq<char> {
    "pending"@
}

pub open spec fn status_active() -> Seq<char> {
    "active"@
}

pub open spec fn status_completed() -> Seq<char> {
    "completed"@
}

pub open spec fn status_cancelled() -> Seq<char> {
    "cancelled"@
}

pub open spec fn status_failed() -> Seq<char> {
    "failed"@
}

/// `i` is the position of the first transfer with identifier `id`.
pub open spec fn is_first_with_id(ts: Seq<TransferState>, id: Seq<char>, i: int) -> bool {
    &&& 0 <= i < ts.len()
    &&& ts[i].id@ == id
    &&& forall|j: int| 0 <= j < i ==> ts[j].id@ != id
}

/// Some transfer has identifier `id`.
pub open spec fn has_id(ts: Seq<TransferState>, id: Seq<char>) -> bool {
    exists|j: int| 0 <= j < ts.len() && ts[j].id@ == id
}

/// `after` is `before` with the given status, total, sent count and start time.
pub open spec fn transfer_updated(
    before: TransferState,
    after: TransferState,
    status: Seq<char>,
    total: u64,
    sent: u64,
    started_at: u64,
) -> bool {
    &&& after.id@ == before.id@
    &&& after.file_name@ == before.file_name@
    &&& after.total == total
    &&& after.sent == sent
    &&& after.status@ == status
    &&& after.started_at == started_at
    &&& after.file_hash@ == before.file_hash@
}

/// `new` is `old` with at most the entry at `i` changed.
pub open spec fn only_changed_at(old: Seq<TransferState>, new: Seq<TransferState>, i: int) -> bool {
    &&& new.len() == old.len()
    &&& forall|j: int| 0 <= j < old.len() && j != i ==> new[j] == old[j]
}

/// The position of the first transfer with identifier `id`, if any.
fn find_transfer(transfers: &Vec<TransferState>, id: &String) -> (r: Option<usize>)
    ensures
        match r {
            Some(i) => is_first_with_id(transfers@, id@, i as int),
            None => !has_id(transfers@, id@),
        },
{
    let mut i: usize = 0;
    while i < transfers.len()
        invariant
            i <= transfers@.len(),
            forall|j: int| 0 <= j < i ==> transfers@[j].id@ != id@,
        decreases transfers@.len() - i,
    {
        if transfers[i].id == *id {
            return Some(i);
        }
        i = i + 1;
    }
    None
}

/// Record an outgoing transfer that starts now (`now_ms`): active, nothing
/// sent yet, no hash.
pub fn register_transfer(transfers: &mut Vec<TransferState>, id: &str, name: &str, total: u64, now_ms: u64)
    ensures
        final(transfers)@.len() == old(transfers)@.len() + 1,
        final(transfers)@.take(old(transfers)@.len() as int) == old(transfers)@,
        ({
            let t = final(transfers)@.last();
            &&& t.id@ == id@
            &&& t.file_name@ == name@
            &&& t.total == total
            &&& t.sent == 0
            &&& t.status@ == status_active()
            &&& t.started_at == now_ms
            &&& t.file_hash@ == Seq::<char>::empty()
        }),
{
    let t = TransferState {
        id: String::from_str(id),
        file_name: String::from_str(name),
        total,
        sent: 0,
        status: String::from_str("active"),
        started_at: now_ms,
        file_hash: String::new(),
    };
    transfers.push(t);
    assert(final(transfers)@.take(old(transfers)@.len() as int) =~= old(transfers)@);
}

/// Record an incoming transfer request from `peer` awaiting the user's
/// answer: pending, shown as "来自 {peer}: {name}".
pub fn register_incoming(transfers: &mut Vec<TransferState>, id: &str, peer: &str, name: &str, size: u64)
    ensures
        final(transfers)@.len() == old(transfers)@.len() + 1,
        final(transfers)@.take(old(transfers)@.len() as int) == old(transfers)@,
        ({
            let t = final(transfers)@.last();
            &&& t.id@ == id@
            &&& t.file_name@ == "来自 "@ + peer@ + ": "@ + name@
            &&& t.total == size
            &&& t.sent == 0
            &&& t.status@ == status_pending()
            &&& t.started_at == 0
            &&& t.file_hash@ == Seq::<char>::empty()
        }),
{
    let label = String::from_str("来自 ").concat(peer).concat(": ").concat(name);
    let t = TransferState {
        id: String::from_str(id),
        file_name: label,
        total: size,
        sent: 0,
        status: String::from_str("pending"),
        started_at: 0,
        file_hash: String::new(),
    };
    transfers.push(t);
    assert(final(transfers)@.take(old(transfers)@.len() as int) =~= old(transfers)@);
}

/// Mark the first transfer with identifier `id` as cancelled; nothing
/// changes when there is none.
pub fn cancel_transfer(transfers: &mut Vec<TransferState>, id: &str)
    ensures
        !has_id(old(transfers)@, id@) ==> final(transfers)@ == old(transfers)@,
        forall|i: int|
            is_first_with_id(old(transfers)@, id@, i) ==> {
                &&& only_changed_at(old(transfers)@, final(transfers)@, i)
                &&& transfer_updated(
                    old(transfers)@[i],
                    final(transfers)@[i],
                    status_cancelled(),
                    old(transfers)@[i].total,
                    old(transfers)@[i].sent,
                    old(transfers)@[i].started_at,
                )
            },
{
    let key = String::from_str(id);
    match find_transfer(transfers, &key) {
        Some(i) => {
            transfers[i].status = String::from_str("cancelled");
        },
        None => {},
    }
}

/// The user accepted the request `id`: the transfer becomes active and
/// starts now (`now_ms`).
pub fn activate_transfer(transfers: &mut Vec<TransferState>, id: &str, now_ms: u64)
    ensures
        !has_id(old(transfers)@, id@) ==> final(transfers)@ == old(transfers)@,
        forall|i: int|
            is_first_with_id(old(transfers)@, id@, i) ==> {
                &&& only_changed_at(old(transfers)@, final(transfers)@, i)
                &&& transfer_updated(
                    old(transfers)@[i],
                    final(transfers)@[i],
                    status_active(),
                    old(transfers)@[i].total,
                    old(transfers)@[i].sent,
                    now_ms,
                )
            },
{
    let key = String::from_str(id);
    match find_transfer(transfers, &key) {
        Some(i) => {
            transfers[i].status = String::from_str("active");
            transfers[i].started_at = now_ms;
        },
        None => {},
    }
}

/// Drop every transfer with identifier `id` (a declined or timed-out request).
pub fn remove_transfer(transfers: &mut Vec<TransferState>, id: &str)
    ensures
        final(transfers)@ == old(transfers)@.filter(|t: TransferState| t.id@ != id@),
{
    let key = String::from_str(id);
    let ghost keep = |t: TransferState| t.id@ != id@;
    let mut kept: Vec<TransferState> = Vec::new();
    let mut i: usize = 0;
    while i < transfers.len()
        invariant
            i <= transfers@.len(),
            key@ == id@,
            keep == (|t: TransferState| t.id@ != id@),
            kept@ == transfers@.take(i as int).filter(keep),
        decreases transfers@.len() - i,
    {
        proof {
            reveal_with_fuel(Seq::filter, 1);
            assert(transfers@.take(i + 1).drop_last() =~= transfers@.take(i as int));
            assert(transfers@.take(i + 1).last() == transfers@[i as int]);
        }
        if transfers[i].id != key {
            kept.push(transfers[i].clone());
        }
        i = i + 1;
    }
    assert(transfers@.take(i as int) =~= transfers@);
    *transfers = kept;
}

/// What a history record says of a finished transfer: which transfer and
/// file, the peer, "sent" or "received", its size, how it ended and the
/// file's digest. The caller pairs it with what only it can add (the time
/// and the speed).
#[derive(Debug)]
pub struct HistoryEntry {
    pub id: String,
    pub file_name: String,
    pub peer: String,
    pub direction: String,
    pub size: u64,
    pub status: String,
    pub file_hash: String,
}

/// `e` holds exactly these fields.
pub open spec fn entry_is(
    e: HistoryEntry,
    id: Seq<char>,
    file_name: Seq<char>,
    peer: Seq<char>,
    direction: Seq<char>,
    size: u64,
    status: Seq<char>,
    file_hash: Seq<char>,
) -> bool {
    &&& e.id@ == id
    &&& e.file_name@ == file_name
    &&& e.peer@ == peer
    &&& e.direction@ == direction
    &&& e.size == size
    &&& e.status@ == status
    &&& e.file_hash@ == file_hash
}

/// How an outgoing transfer ended.
#[derive(Debug, Clone, Copy, PartialEq, Eq, Structural)]
pub enum TransferOutcome {
    Completed,
    Cancelled,
    Failed,
}

/// The status text recorded for an outcome.
pub open spec fn outcome_status(o: TransferOutcome) -> Seq<char> {
    match o {
        TransferOutcome::Completed => status_completed(),
        TransferOutcome::Cancelled => status_cancelled(),
        TransferOutcome::Failed => status_failed(),
    }
}

/// The outcome of a sending task's result: success, the error "cancelled",
/// or any other error.
pub open spec fn spec_outcome_of(result: Result<(), String>) -> TransferOutcome {
    match result {
        Ok(_) => TransferOutcome::Completed,
        Err(e) => if e@ == "cancelled"@ {
            TransferOutcome::Cancelled
        } else {
            TransferOutcome::Failed
        },
    }
}

fn status_text(o: TransferOutcome) -> (s: String)
    ensures
        s@ == outcome_status(o),
{
    match o {
        TransferOutcome::Completed => String::from_str("completed"),
        TransferOutcome::Cancelled => String::from_str("cancelled"),
        TransferOutcome::Failed => String::from_str("failed"),
    }
}

/// Close the outgoing transfer `id` with the sending task's `result`: its
/// cancel flag is dropped; its status becomes "completed", "cancelled" (for
/// the error "cancelled") or "failed"; on success the whole size counts as
/// sent, otherwise the progress stays. A "sent" record of the updated entry
/// (with no peer), paired with what `make_extras` adds to it, goes to the
/// front of `history`, which keeps at most `HISTORY_LIMIT` records.
/// Transfers and history stay as they are when no transfer has `id`.
pub fn finish_transfer<X, C, F: Fn(&TransferState) -> X>(
    transfers: &mut Vec<TransferState>,
    history: &mut Vec<(HistoryEntry, X)>,
    cancel_flags: &mut CancelFlags<C>,
    id: &str,
    result: &Result<(), String>,
    make_extras: F,
) -> (outcome: TransferOutcome)
    requires
        forall|t: &TransferState| make_extras.requires((t,)),
    ensures
        outcome == spec_outcome_of(*result),
        final(cancel_flags)@ == old(cancel_flags)@.remove(id@),
        !has_id(old(transfers)@, id@) ==> final(transfers)@ == old(transfers)@ && final(history)@
            == old(history)@,
        forall|i: int|
            is_first_with_id(old(transfers)@, id@, i) ==> {
                let t = final(transfers)@[i];
                &&& only_changed_at(old(transfers)@, final(transfers)@, i)
                &&& transfer_updated(
                    old(transfers)@[i],
                    t,
                    outcome_status(outcome),
                    old(transfers)@[i].total,
                    if outcome == TransferOutcome::Completed {
                        old(transfers)@[i].total
                    } else {
                        old(transfers)@[i].sent
                    },
                    old(transfers)@[i].started_at,
                )
                &&& final(history)@ == history_after(old(history)@, final(history)@[0])
                &&& entry_is(
                    final(history)@[0].0,
                    t.id@,
                    t.file_name@,
                    ""@,
                    "sent"@,
                    t.total,
                    outcome_status(outcome),
                    t.file_hash@,
                )
                &&& make_extras.ensures((&t,), final(history)@[0].1)
            },
{
    cancel_flags.remove(id);
    let cancelled_text = String::from_str("cancelled");
    let outcome = match result {
        Ok(_) => TransferOutcome::Completed,
        Err(e) => if *e == cancelled_text {
            TransferOutcome::Cancelled
        } else {
            TransferOutcome::Failed
        },
    };
    let key = String::from_str(id);
    match find_transfer(transfers, &key) {
        Some(i) => {
            transfers[i].status = status_text(outcome);
            if outcome == TransferOutcome::Completed {
                let total = transfers[i].total;
                transfers[i].sent = total;
            }
            let snapshot = transfers[i].clone();
            let entry = HistoryEntry {
                id: snapshot.id.clone(),
                file_name: snapshot.file_name.clone(),
                peer: String::from_str(""),
                direction: String::from_str("sent"),
                size: snapshot.total,
                status: snapshot.status.clone(),
                file_hash: snapshot.file_hash.clone(),
            };
            let extras = make_extras(&snapshot);
            let ghost record = (entry, extras);
            push_history(history, (entry, extras));
            proof {
                assert(history@[0] == record);
            }
            outcome
        },
        None => outcome,
    }
}

/// `e` is a "received" record of transfer `id` from `peer`, of the file
/// `file_name` of `size` bytes, completed or failed as `success` says.
pub open spec fn received_entry(
    e: HistoryEntry,
    id: Seq<char>,
    file_name: Seq<char>,
    peer: Seq<char>,
    size: u64,
    success: bool,
) -> bool {
    &&& e.id@ == id
    &&& e.file_name@ == file_name
    &&& e.peer@ == peer
    &&& e.direction@ == "received"@
    &&& e.size == size
    &&& e.status@ == if success {
        status_completed()
    } else {
        status_failed()
    }
}

/// Close the incoming transfer `id` from `peer`, of the file `file_name`,
/// once its data has been handled: its status becomes "completed" or
/// "failed", its total becomes `size`, and on success all of it counts as
/// received. A "received" record of `size` bytes with that status and the
/// transfer's digest (empty when no transfer has `id`, which then changes no
/// transfer), paired with what `make_extras` adds from the updated entry,
/// goes to the front of `history`, which keeps at most `HISTORY_LIMIT`
/// records.
pub fn finish_receive<X, F: Fn(Option<&TransferState>) -> X>(
    transfers: &mut Vec<TransferState>,
    history: &mut Vec<(HistoryEntry, X)>,
    id: &str,
    peer: &str,
    file_name: &str,
    size: u64,
    success: bool,
    make_extras: F,
)
    requires
        forall|t: Option<&TransferState>| make_extras.requires((t,)),
    ensures
        final(history)@ == history_after(old(history)@, final(history)@[0]),
        received_entry(final(history)@[0].0, id@, file_name@, peer@, size, success),
        !has_id(old(transfers)@, id@) ==> {
            &&& final(transfers)@ == old(transfers)@
            &&& final(history)@[0].0.file_hash@ == ""@
            &&& make_extras.ensures((None::<&TransferState>,), final(history)@[0].1)
        },
        forall|i: int|
            is_first_with_id(old(transfers)@, id@, i) ==> {
                &&& only_changed_at(old(transfers)@, final(transfers)@, i)
                &&& transfer_updated(
                    old(transfers)@[i],
                    final(transfers)@[i],
                    if success {
                        status_completed()
                    } else {
                        status_failed()
                    },
                    size,
                    if success {
                        size
                    } else {
                        old(transfers)@[i].sent
                    },
                    old(transfers)@[i].started_at,
                )
                &&& final(history)@[0].0.file_hash@ == old(transfers)@[i].file_hash@
                &&& make_extras.ensures((Some(&final(transfers)@[i]),), final(history)@[0].1)
            },
{
    let key = String::from_str(id);
    let status = if success {
        String::from_str("completed")
    } else {
        String::from_str("failed")
    };
    let (file_hash, extras) = match find_transfer(transfers, &key) {
        Some(i) => {
            transfers[i].status = status.clone();
            transfers[i].total = size;
            if success {
                transfers[i].sent = size;
            }
            let snapshot = transfers[i].clone();
            (snapshot.file_hash.clone(), make_extras(Some(&snapshot)))
        },
        None => (String::from_str(""), make_extras(None)),
    };
    let entry = HistoryEntry {
        id: String::from_str(id),
        file_name: String::from_str(file_name),
        peer: String::from_str(peer),
        direction: String::from_str("received"),
        size,
        status,
        file_hash,
    };
    let ghost record = (entry, extras);
    push_history(history, (entry, extras));
    proof {
        assert(history@[0] == record);
    }
}

/// Record the digest of a received file on the transfer `id`.
pub fn set_file_hash(transfers: &mut Vec<TransferState>, id: &str, hash_hex: &str)
    ensures
        !has_id(old(transfers)@, id@) ==> final(transfers)@ == old(transfers)@,
        forall|i: int|
            is_first_with_id(old(transfers)@, id@, i) ==> {
                &&& only_changed_at(old(transfers)@, final(transfers)@, i)
                &&& final(transfers)@[i].file_hash@ == hash_hex@
                &&& final(transfers)@[i].id == old(transfers)@[i].id
                &&& final(transfers)@[i].file_name == old(transfers)@[i].file_name
                &&& final(transfers)@[i].total == old(transfers)@[i].total
                &&& final(transfers)@[i].sent == old(transfers)@[i].sent
                &&& final(transfers)@[i].status == old(transfers)@[i].status
                &&& final(transfers)@[i].started_at == old(transfers)@[i].started_at
            },
{
    let key = String::from_str(id);
    match find_transfer(transfers, &key) {
        Some(i) => {
            transfers[i].file_hash = String::from_str(hash_hex);
        },
        None => {},
    }
}

/// Milliseconds between `started_at` and `now_ms`, at least 1 (a clock that
/// went backwards counts as 1).
pub fn elapsed_ms(now_ms: u64, started_at: u64) -> (e: u64)
    ensures
        e == if now_ms > started_at && now_ms - started_at > 1 {
            (now_ms - started_at) as u64
        } else {
            1
        },
{
    let d = now_ms.saturating_sub(started_at);
    if d > 1 {
        d
    } else {
        1
    }
}

/// The history after recording `record`: newest first, at most
/// `HISTORY_LIMIT` records.
pub open spec fn history_after<T>(history: Seq<T>, record: T) -> Seq<T> {
    let h = seq![record] + history;
    if h.len() > HISTORY_LIMIT {
        h.take(HISTORY_LIMIT as int)
    } else {
        h
    }
}

/// Put `record` at the front of `history`, dropping the oldest records
/// beyond `HISTORY_LIMIT`.
pub fn push_history<T>(history: &mut Vec<T>, record: T)
    ensures
        final(history)@ == history_after(old(history)@, record),
{
    history.insert(0, record);
    if history.len() > HISTORY_LIMIT {
        history.truncate(HISTORY_LIMIT);
    }
    proof {
        let h = seq![record] + old(history)@;
        assert(old(history)@.insert(0, record) =~= h);
    }
}

/// Recording a record keeps the history within `HISTORY_LIMIT`, puts the
/// new record first, and keeps the earlier records in their order behind it.
pub proof fn lemma_history_bounded<T>(history: Seq<T>, record: T)
    requires
        history.len() <= HISTORY_LIMIT,
    ensures
        ({
            let after = history_after(history, record);
            &&& after.len() <= HISTORY_LIMIT
            &&& after.len() == if history.len() < HISTORY_LIMIT {
                history.len() + 1int
            } else {
                HISTORY_LIMIT as int
            }
            &&& after[0] == record
            &&& forall|i: int| 0 <= i < after.len() - 1 ==> after[i + 1] == history[i]
        }),
{
}

/// The user's settings.
#[derive(Debug)]
pub struct AppSettings {
    pub compress: bool,
    pub bundle: bool,
    pub notifications_enabled: bool,
    pub port: u16,
    pub encrypted: bool,
    pub password: String,
}

impl Clone for AppSettings {
    fn clone(&self) -> (s: Self)
        ensures
            s == *self,
    {
        AppSettings {
            compress: self.compress,
            bundle: self.bundle,
            notifications_enabled: self.notifications_enabled,
            port: self.port,
            encrypted: self.encrypted,
            password: self.password.clone(),
        }
    }
}

impl Default for AppSettings {
    /// Compression, bundling and notifications on, port 8877, no encryption.
    fn default() -> (s: Self)
        ensures
            s.compress,
            s.bundle,
            s.notifications_enabled,
            s.port == DEFAULT_PORT,
            !s.encrypted,
            s.password@ == Seq::<char>::empty(),
    {
        AppSettings {
            compress: true,
            bundle: true,
            notifications_enabled: true,
            port: DEFAULT_PORT,
            encrypted: false,
            password: String::new(),
        }
    }
}

/// Whether new settings need the server to listen again: the port changed.
pub fn needs_restart(old_settings: &AppSettings, new_settings: &AppSettings) -> (b: bool)
    ensures
        b == (old_settings.port != new_settings.port),
{
    old_settings.port != new_settings.port
}

/// The password a send uses: the configured one when encrypting, else none.
pub fn data_password(opts: &SendOptions) -> (p: String)
    ensures
        p@ == if opts.encrypted {
            opts.password@
        } else {
            Seq::<char>::empty()
        },
{
    if opts.encrypted {
        opts.password.clone()
    } else {
        String::new()
    }
}

/// What the user asked to send, and how.
#[derive(Debug)]
pub struct SendOptions {
    pub addr: String,
    pub path: String,
    pub compress: bool,
    pub bundle: bool,
    pub encrypted: bool,
    pub password: String,
}

/// This node as shown to the user.
#[derive(Debug)]
pub struct LocalInfo {
    pub name: String,
    pub ips: Vec<String>,
    pub save_dir: String,
    pub port: u16,
}

/// A file the user picked.
#[derive(Debug)]
pub struct PickedFile {
    pub path: String,
    pub name: String,
    pub size: u64,
}

/// Another node found on the local network.
#[derive(Debug)]
pub struct DiscoveredDevice {
    pub name: String,
    pub ip: String,
    pub port: u16,
}

/// Some string of `v` equals `s`.
pub open spec fn strings_contain(v: Seq<String>, s: Seq<char>) -> bool {
    exists|j: int| 0 <= j < v.len() && v[j]@ == s
}

/// Some device of `v` has address `ip`.
pub open spec fn devices_contain(v: Seq<DiscoveredDevice>, ip: Seq<char>) -> bool {
    exists|j: int| 0 <= j < v.len() && v[j].ip@ == ip
}

fn contains_string(v: &[String], s: &String) -> (b: bool)
    ensures
        b == strings_contain(v@, s@),
{
    let mut i: usize = 0;
    while i < v.len()
        invariant
            i <= v@.len(),
            forall|j: int| 0 <= j < i ==> v@[j]@ != s@,
        decreases v@.len() - i,
    {
        if v[i] == *s {
            return true;
        }
        i = i + 1;
    }
    false
}

fn contains_device(v: &Vec<DiscoveredDevice>, ip: &String) -> (b: bool)
    ensures
        b == devices_contain(v@, ip@),
{
    let mut i: usize = 0;
    while i < v.len()
        invariant
            i <= v@.len(),
            forall|j: int| 0 <= j < i ==> v@[j].ip@ != ip@,
        decreases v@.len() - i,
    {
        if v[i].ip == *ip {
            return true;
        }
        i = i + 1;
    }
    false
}

/// Take in one answer to a discovery probe: a device that gave a non-empty
/// address that is neither one of ours (`our_ips`) nor already found is
/// added, with its announced port (8877 when it announced none; the number
/// is cut to 16 bits). Returns whether it was added.
pub fn record_discovery_reply(
    devices: &mut Vec<DiscoveredDevice>,
    our_ips: &[String],
    name: &str,
    ip: &str,
    port: Option<u64>,
) -> (added: bool)
    ensures
        added == (ip@.len() > 0 && !strings_contain(our_ips@, ip@) && !devices_contain(old(devices)@, ip@)),
        !added ==> final(devices)@ == old(devices)@,
        added ==> {
            &&& final(devices)@.len() == old(devices)@.len() + 1
            &&& final(devices)@.take(old(devices)@.len() as int) == old(devices)@
            &&& final(devices)@.last().name@ == name@
            &&& final(devices)@.last().ip@ == ip@
            &&& final(devices)@.last().port == match port {
                Some(p) => p as u16,
                None => DEFAULT_PORT,
            }
        },
{
    let ip_s = String::from_str(ip);
    let len = ip.unicode_len();
    if len == 0 || contains_string(our_ips, &ip_s) || contains_device(devices, &ip_s) {
        return false;
    }
    let p: u16 = match port {
        Some(p) => p as u16,
        None => DEFAULT_PORT,
    };
    devices.push(DiscoveredDevice { name: String::from_str(name), ip: ip_s, port: p });
    assert(final(devices)@.take(old(devices)@.len() as int) =~= old(devices)@);
    true
}

/// The probe a node broadcasts to find others: "QUICKSHARE_DISCOVER".
pub open spec fn discovery_probe() -> Seq<u8> {
    seq![
        0x51u8, 0x55, 0x49, 0x43, 0x4B, 0x53, 0x48, 0x41, 0x52, 0x45, 0x5F, 0x44, 0x49, 0x53, 0x43,
        0x4F, 0x56, 0x45, 0x52,
    ]
}

/// The probe's bytes.
pub fn discovery_probe_bytes() -> (v: Vec<u8>)
    ensures
        v@ == discovery_probe(),
{
    let v: Vec<u8> = vec![
        0x51u8, 0x55, 0x49, 0x43, 0x4B, 0x53, 0x48, 0x41, 0x52, 0x45, 0x5F, 0x44, 0x49, 0x53, 0x43,
        0x4F, 0x56, 0x45, 0x52,
    ];
    assert(v@ =~= discovery_probe());
    v
}

/// Whether a datagram is a discovery probe, to be answered.
pub fn is_discovery_probe(datagram: &[u8]) -> (b: bool)
    ensures
        b == (datagram@ == discovery_probe()),
{
    let probe = discovery_probe_bytes();
    if datagram.len() != probe.len() {
        return false;
    }
    let mut i: usize = 0;
    while i < datagram.len()
        invariant
            i <= datagram@.len(),
            datagram@.len() == probe@.len(),
            probe@ == discovery_probe(),
            forall|j: int| 0 <= j < i ==> datagram@[j] == probe@[j],
        decreases datagram@.len() - i,
    {
        if datagram[i] != probe[i] {
            return false;
        }
        i = i + 1;
    }
    assert(datagram@ =~= probe@);
    true
}

} // verus!
