//! Error types of the library. Each carries a fixed description returned
//! by its `message` method.

use vstd::prelude::*;

verus! {

/// Errors of connection management.
#[derive(Debug)]
pub enum ConnectionError {
    /// Failed to create the async runtime.
    RuntimeCreation(String),
    /// Bluetooth adapter not found or not available.
    NoAdapter,
    /// Failed to connect to a specific device.
    DeviceConnection { device_id: String, reason: String },
    /// Connection was interrupted.
    Interrupted,
}

impl ConnectionError {
    /// A fixed description of the error kind.
    pub fn message(&self) -> (r: &'static str)
        ensures
            r@ == (match self {
                ConnectionError::RuntimeCreation(_) => "Failed to create async runtime"@,
                ConnectionError::NoAdapter =>
                    "No Bluetooth adapter found. Please ensure Bluetooth is enabled."@,
                ConnectionError::DeviceConnection { .. } => "Failed to connect to device"@,
                ConnectionError::Interrupted => "Connection was interrupted by user"@,
            }),
    {
        match self {
            ConnectionError::RuntimeCreation(_) => "Failed to create async runtime",
            ConnectionError::NoAdapter =>
                "No Bluetooth adapter found. Please ensure Bluetooth is enabled.",
            ConnectionError::DeviceConnection { .. } => "Failed to connect to device",
            ConnectionError::Interrupted => "Connection was interrupted by user",
        }
    }
}

/// Errors of device scanning.
#[derive(Debug, Clone)]
pub enum ScanError {
    /// Bluetooth manager initialization failed.
    ManagerInit(String),
    /// No Bluetooth adapters available.
    NoAdapters,
    /// The scan operation failed.
    ScanFailed(String),
}

impl ScanError {
    /// A fixed description of the error kind.
    pub fn message(&self) -> (r: &'static str)
        ensures
            r@ == (match self {
                ScanError::ManagerInit(_) => "Failed to initialize Bluetooth manager"@,
                ScanError::NoAdapters => "No Bluetooth adapters found"@,
                ScanError::ScanFailed(_) => "Scan operation failed"@,
            }),
    {
        match self {
            ScanError::ManagerInit(_) => "Failed to initialize Bluetooth manager",
            ScanError::NoAdapters => "No Bluetooth adapters found",
            ScanError::ScanFailed(_) => "Scan operation failed",
        }
    }
}

/// Errors of the recording lifecycle.
#[derive(Debug, Clone, Copy, PartialEq, Eq, Structural)]
pub enum RecorderError {
    /// A recording is already in progress.
    AlreadyRecording,
}

impl RecorderError {
    /// A fixed description of the error kind.
    pub fn message(&self) -> (r: &'static str)
        ensures
            r@ == "Recording already in progress"@,
    {
        match self {
            RecorderError::AlreadyRecording => "Recording already in progress",
        }
    }
}

} // verus!
