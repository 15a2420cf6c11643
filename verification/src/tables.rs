//! The relational schema: one DDL builder per table.
//!
//! The engine keeps its state in memory; these statements are what an
//! embedder runs against the relational store backing a tenant's database
//! file, so that the persisted schema matches the engine's data model.

use vstd::prelude::*;

verus! {

/// The `users` table.
pub struct UserTable;

impl UserTable {
    /// SQL statement creating the users table.
    pub fn create_table() -> (r: String)
        ensures
            r@ == "CREATE TABLE IF NOT EXISTS users (id TEXT PRIMARY KEY NOT NULL, lastEdit INTEGER NOT NULL, role INTEGER NOT NULL, name TEXT NOT NULL, arrivalAtServer INTEGER NOT NULL, deleted INTEGER NOT NULL)"@,
    {
        String::from_str(
            "CREATE TABLE IF NOT EXISTS users (id TEXT PRIMARY KEY NOT NULL, lastEdit INTEGER NOT NULL, role INTEGER NOT NULL, name TEXT NOT NULL, arrivalAtServer INTEGER NOT NULL, deleted INTEGER NOT NULL)",
        )
    }
}

/// The `sawmills` table.
pub struct SawmillTable;

impl SawmillTable {
    /// SQL statement creating the sawmills table.
    pub fn create_table() -> (r: String)
        ensures
            r@ == "CREATE TABLE IF NOT EXISTS sawmills (id TEXT PRIMARY KEY NOT NULL, lastEdit INTEGER NOT NULL, name TEXT NOT NULL, arrivalAtServer INTEGER NOT NULL, deleted INTEGER NOT NULL)"@,
    {
        String::from_str(
            "CREATE TABLE IF NOT EXISTS sawmills (id TEXT PRIMARY KEY NOT NULL, lastEdit INTEGER NOT NULL, name TEXT NOT NULL, arrivalAtServer INTEGER NOT NULL, deleted INTEGER NOT NULL)",
        )
    }
}

/// The `contracts` table.
pub struct ContractTable;

impl ContractTable {
    /// SQL statement creating the contracts table.
    pub fn create_table() -> (r: String)
        ensures
            r@ == "CREATE TABLE IF NOT EXISTS contracts (id TEXT PRIMARY KEY NOT NULL, done INTEGER NOT NULL, lastEdit INTEGER NOT NULL, title TEXT NOT NULL, additionalInfo TEXT NOT NULL, startDate TEXT NOT NULL, endDate TEXT NOT NULL, availableQuantity REAL NOT NULL, bookedQuantity REAL NOT NULL, shippedQuantity REAL NOT NULL, arrivalAtServer INTEGER NOT NULL, deleted INTEGER NOT NULL)"@,
    {
        String::from_str(
            "CREATE TABLE IF NOT EXISTS contracts (id TEXT PRIMARY KEY NOT NULL, done INTEGER NOT NULL, lastEdit INTEGER NOT NULL, title TEXT NOT NULL, additionalInfo TEXT NOT NULL, startDate TEXT NOT NULL, endDate TEXT NOT NULL, availableQuantity REAL NOT NULL, bookedQuantity REAL NOT NULL, shippedQuantity REAL NOT NULL, arrivalAtServer INTEGER NOT NULL, deleted INTEGER NOT NULL)",
        )
    }
}

/// The `locations` table.
pub struct LocationTable;

impl LocationTable {
    /// SQL statement creating the locations table.
    pub fn create_table() -> (r: String)
        ensures
            r@ == "CREATE TABLE IF NOT EXISTS locations (id TEXT PRIMARY KEY NOT NULL, done INTEGER NOT NULL, started INTEGER NOT NULL, lastEdit INTEGER NOT NULL, latitude REAL NOT NULL, longitude REAL NOT NULL, partieNr TEXT NOT NULL, date TEXT NOT NULL, additionalInfo TEXT NOT NULL, initialQuantity REAL NOT NULL, initialOversizeQuantity REAL NOT NULL, initialPieceCount INTEGER NOT NULL, currentQuantity REAL NOT NULL, currentOversizeQuantity REAL NOT NULL, currentPieceCount INTEGER NOT NULL, contractId TEXT NOT NULL, arrivalAtServer INTEGER NOT NULL, deleted INTEGER NOT NULL, FOREIGN KEY (contractId) REFERENCES contracts(id))"@,
    {
        String::from_str(
            "CREATE TABLE IF NOT EXISTS locations (id TEXT PRIMARY KEY NOT NULL, done INTEGER NOT NULL, started INTEGER NOT NULL, lastEdit INTEGER NOT NULL, latitude REAL NOT NULL, longitude REAL NOT NULL, partieNr TEXT NOT NULL, date TEXT NOT NULL, additionalInfo TEXT NOT NULL, initialQuantity REAL NOT NULL, initialOversizeQuantity REAL NOT NULL, initialPieceCount INTEGER NOT NULL, currentQuantity REAL NOT NULL, currentOversizeQuantity REAL NOT NULL, currentPieceCount INTEGER NOT NULL, contractId TEXT NOT NULL, arrivalAtServer INTEGER NOT NULL, deleted INTEGER NOT NULL, FOREIGN KEY (contractId) REFERENCES contracts(id))",
        )
    }
}

/// The `locationSawmillJunction` table.
pub struct LocationSawmillJunctionTable;

impl LocationSawmillJunctionTable {
    /// SQL statement creating the junction table.
    pub fn create_table() -> (r: String)
        ensures
            r@ == "CREATE TABLE IF NOT EXISTS locationSawmillJunction (locationId TEXT NOT NULL, sawmillId TEXT NOT NULL, isOversize INTEGER NOT NULL, PRIMARY KEY (locationId, sawmillId, isOversize), FOREIGN KEY (locationId) REFERENCES locations(id) ON DELETE CASCADE, FOREIGN KEY (sawmillId) REFERENCES sawmills(id) ON DELETE CASCADE)"@,
    {
        String::from_str(
            "CREATE TABLE IF NOT EXISTS locationSawmillJunction (locationId TEXT NOT NULL, sawmillId TEXT NOT NULL, isOversize INTEGER NOT NULL, PRIMARY KEY (locationId, sawmillId, isOversize), FOREIGN KEY (locationId) REFERENCES locations(id) ON DELETE CASCADE, FOREIGN KEY (sawmillId) REFERENCES sawmills(id) ON DELETE CASCADE)",
        )
    }
}

/// The `shipments` table.
pub struct ShipmentTable;

impl ShipmentTable {
    /// SQL statement creating the shipments table.
    pub fn create_table() -> (r: String)
        ensures
            r@ == "CREATE TABLE IF NOT EXISTS shipments (id TEXT PRIMARY KEY NOT NULL, lastEdit INTEGER NOT NULL, quantity REAL NOT NULL, oversizeQuantity REAL NOT NULL, pieceCount INTEGER NOT NULL, userId TEXT NOT NULL, contractId TEXT NOT NULL, sawmillId TEXT NOT NULL, locationId TEXT NOT NULL, arrivalAtServer INTEGER NOT NULL, deleted INTEGER NOT NULL, FOREIGN KEY (userId) REFERENCES users(id), FOREIGN KEY (contractId) REFERENCES contracts(id), FOREIGN KEY (sawmillId) REFERENCES sawmills(id), FOREIGN KEY (locationId) REFERENCES locations(id))"@,
    {
        String::from_str(
            "CREATE TABLE IF NOT EXISTS shipments (id TEXT PRIMARY KEY NOT NULL, lastEdit INTEGER NOT NULL, quantity REAL NOT NULL, oversizeQuantity REAL NOT NULL, pieceCount INTEGER NOT NULL, userId TEXT NOT NULL, contractId TEXT NOT NULL, sawmillId TEXT NOT NULL, locationId TEXT NOT NULL, arrivalAtServer INTEGER NOT NULL, deleted INTEGER NOT NULL, FOREIGN KEY (userId) REFERENCES users(id), FOREIGN KEY (contractId) REFERENCES contracts(id), FOREIGN KEY (sawmillId) REFERENCES sawmills(id), FOREIGN KEY (locationId) REFERENCES locations(id))",
        )
    }
}

/// The `notes` table.
pub struct NoteTable;

impl NoteTable {
    /// SQL statement creating the notes table.
    pub fn create_table() -> (r: String)
        ensures
            r@ == "CREATE TABLE IF NOT EXISTS notes (id TEXT PRIMARY KEY NOT NULL, lastEdit INTEGER NOT NULL, text TEXT NOT NULL, userId TEXT NOT NULL, arrivalAtServer INTEGER NOT NULL, deleted INTEGER NOT NULL, FOREIGN KEY (userId) REFERENCES users(id))"@,
    {
        String::from_str(
            "CREATE TABLE IF NOT EXISTS notes (id TEXT PRIMARY KEY NOT NULL, lastEdit INTEGER NOT NULL, text TEXT NOT NULL, userId TEXT NOT NULL, arrivalAtServer INTEGER NOT NULL, deleted INTEGER NOT NULL, FOREIGN KEY (userId) REFERENCES users(id))",
        )
    }
}

/// The `photos` table.
pub struct PhotoTable;

impl PhotoTable {
    /// SQL statement creating the photos table.
    pub fn create_table() -> (r: String)
        ensures
            r@ == "CREATE TABLE IF NOT EXISTS photos (id TEXT PRIMARY KEY NOT NULL, lastEdit INTEGER NOT NULL, photoFile BLOB NOT NULL, locationId TEXT NOT NULL, arrivalAtServer INTEGER NOT NULL, deleted INTEGER NOT NULL, FOREIGN KEY (locationId) REFERENCES locations(id))"@,
    {
        String::from_str(
            "CREATE TABLE IF NOT EXISTS photos (id TEXT PRIMARY KEY NOT NULL, lastEdit INTEGER NOT NULL, photoFile BLOB NOT NULL, locationId TEXT NOT NULL, arrivalAtServer INTEGER NOT NULL, deleted INTEGER NOT NULL, FOREIGN KEY (locationId) REFERENCES locations(id))",
        )
    }
}

} // verus!
