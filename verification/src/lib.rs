//! The verified core of ImageGuide, an audit for a folder of images: what is in it, what
//! it would weigh as WebP or AVIF, and how it stands against a folder on Sirv.
//!
//! `scan` reads a folder into entries, `rows` and `order` arrange them, `audit` holds the
//! state of the window and every step it takes. `convert`, `compare`, `thumbs` and
//! `estimate` work on `picture`s. `sirv` and `sync` decide what is asked of the remote
//! side and what is moved. `view`, `report`, `layout`, `stage` and `keys` say what the
//! window shows and what a press means; `args` and `headless` are the command line.

pub mod args;
pub mod audit;
pub mod compare;
pub mod convert;
pub mod estimate;
pub mod headless;
pub mod keys;
pub mod layout;
pub mod number;
pub mod order;
pub mod paths;
pub mod picture;
pub mod report;
pub mod rows;
pub mod scan;
pub mod settings;
pub mod sirv;
pub mod stage;
pub mod sync;
pub mod text;
pub mod thumbs;
pub mod update;
pub mod view;
