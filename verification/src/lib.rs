//! Verified core of a model-to-schematic converter: the NBT writer and
//! reader, the schematic encoders, the Minecraft version table, NumPy's
//! random stream, the command line's and the server's rules (arguments,
//! requests, jobs, host checks, output folders), the preview and thumbnail
//! geometry, and the block textures read out of a game jar.
pub mod text;
pub mod mutf8;
pub mod nbt;
pub mod rng;
pub mod error;
pub mod targets;
pub mod settings;
pub mod guard;
pub mod savedir;
pub mod order;
pub mod grid;
pub mod formats;
pub mod litematic;
pub mod sponge;
pub mod structure;
pub mod args;
pub mod reader;
pub mod cli;
pub mod thumbnail;
pub mod textures;
pub mod jobs;
pub mod ui;
pub mod request;
pub mod schema;
pub mod voxelizer;
pub mod serve;
pub mod api;
pub mod preview;
pub mod roundtrip;
pub mod instance;
pub mod uri;
pub mod sample;
pub mod voxel;
pub mod scene;
pub mod pipeline;
pub mod sse;
