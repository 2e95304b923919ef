//! Flea's file-manager rules: collisions, listings, portal files, prefetch lists, updates and GPU pins.
pub mod text;
pub mod keyfile;
pub mod chooser;
pub mod words;
pub mod update;
pub mod verdicts;
pub mod env;
pub mod vulkan;
pub mod prefetch;
pub mod json;
pub mod rowguard;
pub mod paths;
pub mod dirsizeworker;
pub mod dirsizereq;
pub mod localsend;
pub mod collide;
pub mod thumbworker;
pub mod gui;
pub mod ordering;
pub mod jsondoc;
pub mod uimigrate;
