//! The logic of Glance, an image viewer and light editor.

pub mod angles;
pub mod colour;
pub mod compress;
pub mod crop;
pub mod decoders;
pub mod double;
pub mod draw;
pub mod export;
pub mod filmstrip;
pub mod floating;
pub mod format;
pub mod gestures;
pub mod loader;
pub mod order;
pub mod panel;
pub mod paths;
pub mod picture;
pub mod playlist;
pub mod rotation;
pub mod scene;
pub mod session;
pub mod settings;
pub mod single;
pub mod stack;
pub mod text;
pub mod thumbs;
pub mod tiles;
pub mod tone;
pub mod viewer;
pub mod wording;
