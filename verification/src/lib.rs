//! Core logic of the Ascendustry voxel game, as plain data and decisions:
//! the GPU buffer allocator's bookkeeping and the GPU work it asks for, id
//! pools, item and block registries and their data files, inventories, the
//! texture arrays and the interface atlas, the interface widgets and hotbar,
//! the generation of chunks from noise samples, the culling of chunks by
//! slices, the launcher's plans, and the server's rate limits, health and
//! console.
//!
//! The code that talks to the GPU, the file system, the terminal, the clock
//! or other processes, and the floating point geometry, stay with the caller,
//! which hands plain values in and takes plain values back.
pub mod gap;
pub mod entry;
pub mod id_pool;
pub mod allocator;
pub mod upload_order;
pub mod rect;
pub mod types;
pub mod text;
pub mod items;
pub mod block;
pub mod inventory;
pub mod assets;
pub mod textures;
pub mod server;
pub mod data_manager;
pub mod render_queue;
pub mod ui;
pub mod launch;
pub mod world_gen;
pub mod raster;
pub mod report;
pub mod physics;
pub mod fx;
