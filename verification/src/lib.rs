pub mod codec;
pub mod consensus;
pub mod id_list;
pub mod mempool;
pub mod merkle;
pub mod networking;
pub mod rpc;
pub mod sled_store;
pub mod storage;
pub mod types;
