//! The event vocabulary between the device layer, the user interface and
//! the core: connection-status transitions, typed sensor updates, and the
//! commands and messages the interface exchanges.

use vstd::prelude::*;

use crate::channels::MeasurementSample;
use crate::device::BluetoothDevice;

verus! {

/// A connection-status transition reported by the device layer.
#[derive(Debug, Clone)]
pub enum ConnectionStatus {
    Connecting,
    Connected,
    Disconnected,
    Error(String),
}

/// One typed update from the device layer: a heart-rate reading with its
/// beat intervals, a raw measurement batch with one wall-clock stamp, a
/// status transition, or the device's configured sample rates.
#[derive(Debug, Clone)]
pub enum SensorUpdate {
    HeartRate { bpm: u16, rr_intervals: Vec<u16> },
    MeasurementData(Vec<MeasurementSample>),
    ConnectionStatus(ConnectionStatus),
    SampleRateConfig { ecg_rate: u64, acc_rate: u64 },
}

/// A command for the connection manager.
#[derive(Debug, Clone)]
pub enum ConnectionCommand {
    Connect(String),
    Disconnect,
}

/// The interface's view of the connection lifecycle.
#[derive(Debug, Clone, PartialEq)]
pub enum ConnectionState {
    Disconnected,
    Scanning,
    Connecting,
    Connected,
}

/// A message of the interface's event loop.
#[derive(Debug)]
pub enum Message {
    Tick,
    ScanDevices,
    DevicesScanned(Result<Vec<BluetoothDevice>, String>),
    SelectDevice(BluetoothDevice),
    ConnectDevice,
    DisconnectDevice,
    ToggleAutoconnect(bool),
    ToggleSmoothStreaming(bool),
}

} // verus!
