pub mod controller;
pub mod differ;
pub mod hashing;
pub mod names;
pub mod reconciler;
pub mod resource;
pub mod secret;
pub mod secret_types;
pub mod string_map;
pub mod theorems;
