pub mod atomic;
pub mod backed;
pub mod backup;
pub mod bytes;
pub mod command;
pub mod commanded;
pub mod compiled;
pub mod cycle;
pub mod disk;
pub mod dispatched;
pub mod entry;
pub mod error;
pub mod established;
pub mod glob;
pub mod guarded;
pub mod held;
pub mod host;
pub mod interrupted;
pub mod kept;
pub mod layered;
pub mod locked;
pub mod managed;
pub mod message;
pub mod mounted;
pub mod named;
pub mod path;
pub mod placed;
pub mod placing;
pub mod program;
pub mod projection;
pub mod quiet;
pub mod ran;
pub mod reason;
pub mod recovered;
pub mod refused;
pub mod resumed;
pub mod returned;
pub mod rooted;
pub mod rules;
pub mod session;
pub mod several;
pub mod shown;
pub mod sought;
pub mod spared;
pub mod standing;
pub mod state;
pub mod steady;
pub mod store;
pub mod swept;
pub mod synced;
pub mod told;
pub mod transition;
pub mod tree;
pub mod turned;
pub mod watched;
pub mod whole;
pub mod worded;
