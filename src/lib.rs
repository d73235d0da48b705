pub mod peer;
pub mod shards;
pub mod mesh;
pub mod router;
