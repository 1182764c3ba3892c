use vstd::prelude::*;

use crate::database::NikkaDb;
use crate::server::{decode_log, replay, replay_ok, replay_log};
use crate::storage::{Storage, decode_entries, map_of, law_storage_roundtrip};
use crate::content::{Action, ContentType, shallow};
use crate::serial::Serializable;

verus! {

/// The settings a server is built with; each left unset takes its default.
pub struct NikkaBuilder<'names> {
    pub host: Option<(u8, u8, u8, u8)>,
    pub port: Option<u16>,
    pub backup_operations_count: Option<u32>,
    pub backup: Option<&'names str>,
    pub wal: Option<&'names str>,
}

impl<'file_names> NikkaBuilder<'file_names> {
    /// Settings with nothing set.
    pub fn new() -> (r: NikkaBuilder<'file_names>)
        ensures
            r.host is None,
            r.port is None,
            r.backup_operations_count is None,
            r.backup is None,
            r.wal is None,
    {
        NikkaBuilder { host: None, port: None, backup_operations_count: None, backup: None, wal: None }
    }

    /// Sets the address to listen on to `a.b.c.d`.
    pub fn host(self, a: u8, b: u8, c: u8, d: u8) -> (r: Self)
        ensures
            r.host == Some((a, b, c, d)),
            r.port == self.port,
            r.backup_operations_count == self.backup_operations_count,
            r.backup == self.backup,
            r.wal == self.wal,
    {
        let mut s = self;
        s.host = Some((a, b, c, d));
        s
    }

    /// Sets the port to listen on.
    pub fn port(self, port: u16) -> (r: Self)
        ensures
            r.port == Some(port),
            r.host == self.host,
            r.backup_operations_count == self.backup_operations_count,
            r.backup == self.backup,
            r.wal == self.wal,
    {
        let mut s = self;
        s.port = Some(port);
        s
    }

    /// Sets the name of the log of changes.
    pub fn wal_name(self, wal_name: &'file_names str) -> (r: Self)
        ensures
            r.wal == Some(wal_name),
            r.host == self.host,
            r.port == self.port,
            r.backup_operations_count == self.backup_operations_count,
            r.backup == self.backup,
    {
        let mut s = self;
        s.wal = Some(wal_name);
        s
    }

    /// Sets the name of the backup.
    pub fn backup_name(self, backup_name: &'file_names str) -> (r: Self)
        ensures
            r.backup == Some(backup_name),
            r.host == self.host,
            r.port == self.port,
            r.backup_operations_count == self.backup_operations_count,
            r.wal == self.wal,
    {
        let mut s = self;
        s.backup = Some(backup_name);
        s
    }

    /// Sets after how many operations a backup is written.
    pub fn backup_operations_count(self, count: u32) -> (r: Self)
        ensures
            r.backup_operations_count == Some(count),
            r.host == self.host,
            r.port == self.port,
            r.backup == self.backup,
            r.wal == self.wal,
    {
        let mut s = self;
        s.backup_operations_count = Some(count);
        s
    }

    /// The address and port to listen on: `127.0.0.1` and port `0` (any free port) where
    /// unset.
    pub fn address(&self) -> (r: ((u8, u8, u8, u8), u16))
        ensures
            r.0 == (match self.host {
                Some(h) => h,
                None => (127u8, 0u8, 0u8, 1u8),
            }),
            r.1 == (match self.port {
                Some(p) => p,
                None => 0u16,
            }),
    {
        let host = match self.host {
            Some(h) => h,
            None => (127, 0, 0, 1),
        };
        let port = match self.port {
            Some(p) => p,
            None => 0,
        };
        (host, port)
    }

    /// After how many operations a backup is written: 10000 where unset.
    pub fn backup_counter(&self) -> (r: u32)
        ensures
            r == (match self.backup_operations_count {
                Some(c) => c,
                None => 10000u32,
            }),
    {
        match self.backup_operations_count {
            Some(c) => c,
            None => 10000,
        }
    }

    /// The name of the backup: `backup.nikka` where unset.
    pub fn backup_file(&self) -> (r: &'file_names str)
        ensures
            self.backup matches Some(b) ==> r == b,
            self.backup is None ==> r == "backup.nikka",
    {
        match self.backup {
            Some(b) => b,
            None => "backup.nikka",
        }
    }

    /// The name of the log of changes: `wal.nikka` where unset.
    pub fn wal_file(&self) -> (r: &'file_names str)
        ensures
            self.wal matches Some(w) ==> r == w,
            self.wal is None ==> r == "wal.nikka",
    {
        match self.wal {
            Some(w) => w,
            None => "wal.nikka",
        }
    }
}

/// The database that a backup and a log of changes hold: what the backup holds, with the
/// log's requests carried out again on it. `None` where the backup cannot be read, or a
/// request of the log cannot be read or carried out.
pub fn restore_database(backup: &[u8], wal: &[u8]) -> (r: Option<NikkaDb>)
    ensures
        match r {
            Some(db) => {
                &&& db.wf()
                &&& decode_entries(backup@) is Some
                &&& decode_log(wal@) is Some
                &&& replay_ok(map_of(decode_entries(backup@).unwrap()), decode_log(wal@).unwrap())
                &&& db.view() == replay(map_of(decode_entries(backup@).unwrap()), decode_log(wal@).unwrap())
            },
            None => decode_entries(backup@) is None || decode_log(wal@) is None || !replay_ok(
                map_of(decode_entries(backup@).unwrap()),
                decode_log(wal@).unwrap(),
            ),
        },
{
    let storage = match Storage::parse(backup) {
        Some(s) => s,
        None => {
            return None;
        },
    };
    let mut database = NikkaDb::from_storage(storage);
    if replay_log(&mut database, wal) {
        Some(database)
    } else {
        None
    }
}

/// A database restored from its own backup and an empty log of changes holds the same
/// keys, each with the same bytes and its kind cut to one number's worth (see `shallow`),
/// when every key and value is shorter than 256 bytes: `restore_database` then succeeds
/// with that view.
pub proof fn law_backup_restores(db: NikkaDb)
    requires
        db.wf(),
        db.spec_storage().encodable(),
    ensures
        ({
            let b = db.spec_storage().encoding();
            &&& decode_entries(b) is Some
            &&& decode_log(Seq::empty()) == Some(Seq::<(Action, ContentType, Seq<u8>)>::empty())
            &&& replay_ok(map_of(decode_entries(b).unwrap()), Seq::empty())
            &&& replay(map_of(decode_entries(b).unwrap()), Seq::empty()) == db.view().map_values(
                |v: (ContentType, Seq<u8>)| (shallow(v.0), v.1),
            )
        }),
{
    law_storage_roundtrip(db.spec_storage());
    db.lemma_storage_view();
}

} // verus!
