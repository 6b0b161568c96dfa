//! A minimal key-value store core: a storage engine behind a narrow trait,
//! a dispatcher that turns decoded requests into well-formed responses, a
//! lifecycle-hook pipeline around dispatch, a cheaply cloneable service
//! handle shared across threads, and a length-prefixed wire codec.

mod codec;
mod command;
mod error;
mod memory;
mod service;
mod storage;
mod value;

pub use codec::decode_bytes;
pub use codec::decode_pair;
pub use codec::decode_pairs;
pub use codec::decode_request;
pub use codec::decode_response;
pub use codec::decode_str;
pub use codec::decode_u32;
pub use codec::decode_u64;
pub use codec::decode_value;
pub use codec::decode_values;
pub use codec::enc_bytes;
pub use codec::enc_pair;
pub use codec::enc_pair_list;
pub use codec::enc_req;
pub use codec::enc_resp;
pub use codec::enc_str;
pub use codec::enc_u32;
pub use codec::enc_u64;
pub use codec::enc_value;
pub use codec::enc_value_list;
pub use codec::encode_bytes;
pub use codec::encode_pair;
pub use codec::encode_pairs;
pub use codec::encode_request;
pub use codec::encode_response;
pub use codec::encode_str;
pub use codec::encode_u32;
pub use codec::encode_u64;
pub use codec::encode_value;
pub use codec::encode_values;
pub use codec::lemma_enc_u64_injective;
pub use codec::read_frame;
pub use codec::write_frame;
pub use command::CommandRequest;
pub use command::CommandResponse;
pub use command::Hdel;
pub use command::Hexist;
pub use command::Hget;
pub use command::Hgetall;
pub use command::Hset;
pub use command::ReqDataView;
pub use command::ReqView;
pub use command::RequestData;
pub use command::RespView;
pub use service::CommandService;
pub use service::Notify;
pub use service::NotifyMut;
pub use service::RespHook;
pub use service::Service;
pub use service::ServiceInner;
pub use service::apply_hook;
pub use service::apply_hooks;
pub use service::assert_res_error;
pub use service::assert_res_ok;
pub use service::contains_bytes;
pub use service::dispatch;
pub use service::lemma_status_hook_wins;
pub use service::dispatch_matches;
pub use service::dispatch_outcome;
pub use service::spec_error_status;
pub use service::spec_hget_resp;
pub use service::spec_hgetall_matches;
pub use service::spec_hset_resp;
pub use service::spec_invalid_resp;
pub use service::spec_not_implemented_resp;
pub use service::spec_storage_error_resp;
pub use service::spec_store_after;
pub use service::store_pred;

pub use memory::MemTable;
pub use memory::rows_model;
pub use memory::rows_names_distinct;
pub use storage::Storage;
pub use storage::StorageIter;
pub use storage::StoreModel;
pub use storage::TableModel;
pub use storage::lemma_del_frame;
pub use storage::lemma_del_then_get;
pub use storage::lemma_set_commutes;
pub use storage::lemma_set_frame;
pub use storage::lemma_set_then_get;
pub use storage::lemma_set_then_set;
pub use storage::pairs_keys_distinct;
pub use storage::pairs_map;
pub use storage::store_del;
pub use storage::store_get;
pub use storage::store_set;
pub use storage::store_table;

pub use error::KvError;
pub use error::KvErrorView;
pub use error::spec_error_message;
pub use value::Kvpair;
pub use value::KvpairView;
pub use value::Value;
pub use value::ValueView;
pub use value::bytes_eq;
pub use value::str_eq;
pub use value::lemma_encode_utf8_injective;
