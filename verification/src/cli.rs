//! The commands of the command line, and what each of them means for the map.

use vstd::prelude::*;
use crate::clock::{timestamp_text, ClockReading};
use crate::content_hash::short_hash;
use crate::error::SnapshotError;
use crate::history::SnapshotRecord;
use crate::naming::snapshot_file_name;
use crate::store::KVStore;

verus! {

/// What the user asks for.
#[derive(Clone, Debug, PartialEq, Eq)]
pub enum Commands {
    /// `set` on the command line.
    Put { key: String, value: String },
    Get { key: String },
    Delete { key: String },
    Restore { hash: String },
    ListSnapshots,
    Compare { hash1: String, hash2: String },
}

/// A parsed command line.
#[derive(Clone, Debug, PartialEq, Eq)]
pub struct Cli {
    pub command: Commands,
    /// Path to the database directory.
    pub db_dir: String,
}

impl Commands {
    /// The label under which a snapshot caused by this command is filed, for the
    /// commands that change the map.
    pub open spec fn label(&self) -> Option<Seq<char>> {
        match *self {
            Commands::Put { .. } => Some("set"@),
            Commands::Delete { .. } => Some("delete"@),
            _ => None,
        }
    }

    /// The key that the command changes, for the commands that change the map.
    pub open spec fn subject(&self) -> Seq<char> {
        match *self {
            Commands::Put { key, .. } => key@,
            Commands::Delete { key } => key@,
            _ => Seq::empty(),
        }
    }

    /// The map after the command, given the map before it.
    pub open spec fn effect(&self, before: Map<Seq<char>, Seq<char>>) -> Map<Seq<char>, Seq<char>> {
        match *self {
            Commands::Put { key, value } => before.insert(key@, value@),
            Commands::Delete { key } => before.remove(key@),
            _ => before,
        }
    }

    /// Tells whether the map is to be brought to the latest snapshot before the command
    /// runs: so for every command but `Restore`, which picks its snapshot itself.
    pub fn restores_latest_first(&self) -> (r: bool)
        ensures
            r == !(*self is Restore),
    {
        match self {
            Commands::Restore { .. } => false,
            _ => true,
        }
    }

    /// The label under which a snapshot caused by this command is filed: `set` and
    /// `delete` for the two commands that change the map, nothing for the others.
    pub fn operation_label(&self) -> (r: Option<&'static str>)
        ensures
            match r {
                Some(text) => self.label() == Some(text@),
                None => self.label() is None,
            },
    {
        match self {
            Commands::Put { .. } => Some("set"),
            Commands::Delete { .. } => Some("delete"),
            _ => None,
        }
    }
}

impl KVStore {
    /// Carries out what the command means for the map: `Put` and `Delete` change it, the
    /// other commands leave it as it is.
    pub fn apply(&mut self, command: &Commands)
        ensures
            final(self)@ == command.effect(old(self)@),
    {
        match command {
            Commands::Put { key, value } => {
                self.set(key.clone(), value.clone());
            },
            Commands::Delete { key } => {
                self.delete(key.as_str());
            },
            _ => {},
        }
    }

    /// Takes the snapshot that is due after the command: one for each command that
    /// changes the map, filed under the command's label and key and the timestamp of
    /// now, and none for the others. Where a snapshot is due, taking it succeeds.
    pub fn snapshot_after(&self, command: &Commands) -> (r: Option<
        Result<SnapshotRecord, SnapshotError>,
    >)
        ensures
            match command.label() {
                Some(label) => r matches Some(Ok(record)) && record.captures(self@) && exists|
                    now: ClockReading,
                |
                    now.is_valid() && record.name@ == snapshot_file_name(
                        #[trigger] timestamp_text(now),
                        label,
                        command.subject(),
                        short_hash(record.payload@),
                    ),
                None => r is None,
            },
    {
        let (label, key) = match command {
            Commands::Put { key, .. } => ("set", key),
            Commands::Delete { key } => ("delete", key),
            _ => {
                return None;
            },
        };
        let taken = self.snapshot_named(label, key.as_str());
        proof {
            let record = taken->Ok_0;
            let hash = short_hash(record.payload@);
            let now = choose|now: ClockReading|
                now.is_valid() && record.name@ == snapshot_file_name(
                    #[trigger] timestamp_text(now),
                    label@,
                    key@,
                    hash,
                );
            assert(record.name@ == snapshot_file_name(
                timestamp_text(now),
                command.label()->0,
                command.subject(),
                hash,
            ));
        }
        Some(taken)
    }
}

} // verus!
