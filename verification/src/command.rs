use vstd::prelude::*;

use crate::value::Kvpair;
use crate::value::KvpairView;
use crate::value::Value;
use crate::value::ValueView;

verus! {

/// Read one key of one table.
#[derive(Debug)]
pub struct Hget {
    pub table: String,
    pub key: String,
}

/// Snapshot a whole table.
#[derive(Debug)]
pub struct Hgetall {
    pub table: String,
}

/// Write one pair into one table.
#[derive(Debug)]
pub struct Hset {
    pub table: String,
    pub pair: Kvpair,
}

/// Remove one key (a wire variant this build does not serve yet).
#[derive(Debug)]
pub struct Hdel {
    pub table: String,
    pub key: String,
}

/// Test one key (a wire variant this build does not serve yet).
#[derive(Debug)]
pub struct Hexist {
    pub table: String,
    pub key: String,
}

/// The operation a request carries.
#[derive(Debug)]
pub enum RequestData {
    Hget(Hget),
    Hgetall(Hgetall),
    Hset(Hset),
    Hdel(Hdel),
    Hexist(Hexist),
}

/// One decoded client request; an empty option means the request carried no
/// operation, which dispatch answers with an invalid-command response.
#[derive(Debug)]
pub struct CommandRequest {
    pub request_data: Option<RequestData>,
}

/// The mathematical shape of a [`RequestData`].
#[verifier::ext_equal]
pub enum ReqDataView {
    Hget { table: Seq<char>, key: Seq<char> },
    Hgetall { table: Seq<char> },
    Hset { table: Seq<char>, pair: KvpairView },
    Hdel { table: Seq<char>, key: Seq<char> },
    Hexist { table: Seq<char>, key: Seq<char> },
}

/// The mathematical shape of a [`CommandRequest`].
#[verifier::ext_equal]
pub struct ReqView {
    pub data: Option<ReqDataView>,
}

impl View for RequestData {
    type V = ReqDataView;

    open spec fn view(&self) -> ReqDataView {
        match self {
            RequestData::Hget(p) => ReqDataView::Hget { table: p.table@, key: p.key@ },
            RequestData::Hgetall(p) => ReqDataView::Hgetall { table: p.table@ },
            RequestData::Hset(p) => ReqDataView::Hset { table: p.table@, pair: p.pair@ },
            RequestData::Hdel(p) => ReqDataView::Hdel { table: p.table@, key: p.key@ },
            RequestData::Hexist(p) => ReqDataView::Hexist { table: p.table@, key: p.key@ },
        }
    }
}

impl View for CommandRequest {
    type V = ReqView;

    open spec fn view(&self) -> ReqView {
        match &self.request_data {
            Some(d) => ReqView { data: Some(d@) },
            None => ReqView { data: None },
        }
    }
}

impl CommandRequest {
    pub fn new_hget(table: &str, key: &str) -> (r: Self)
        ensures
            r@ == (ReqView { data: Some(ReqDataView::Hget { table: table@, key: key@ }) }),
    {
        CommandRequest {
            request_data: Some(
                RequestData::Hget(Hget { table: table.to_owned(), key: key.to_owned() }),
            ),
        }
    }

    pub fn new_hgetall(table: &str) -> (r: Self)
        ensures
            r@ == (ReqView { data: Some(ReqDataView::Hgetall { table: table@ }) }),
    {
        CommandRequest {
            request_data: Some(RequestData::Hgetall(Hgetall { table: table.to_owned() })),
        }
    }

    pub fn new_hset(table: &str, key: &str, value: Value) -> (r: Self)
        ensures
            r@ == (ReqView {
                data: Some(
                    ReqDataView::Hset {
                        table: table@,
                        pair: KvpairView { key: key@, value: value@ },
                    },
                ),
            }),
    {
        CommandRequest {
            request_data: Some(
                RequestData::Hset(Hset { table: table.to_owned(), pair: Kvpair::new(key, value) }),
            ),
        }
    }

    pub fn new_hdel(table: &str, key: &str) -> (r: Self)
        ensures
            r@ == (ReqView { data: Some(ReqDataView::Hdel { table: table@, key: key@ }) }),
    {
        CommandRequest {
            request_data: Some(
                RequestData::Hdel(Hdel { table: table.to_owned(), key: key.to_owned() }),
            ),
        }
    }

    pub fn new_hexist(table: &str, key: &str) -> (r: Self)
        ensures
            r@ == (ReqView { data: Some(ReqDataView::Hexist { table: table@, key: key@ }) }),
    {
        CommandRequest {
            request_data: Some(
                RequestData::Hexist(Hexist { table: table.to_owned(), key: key.to_owned() }),
            ),
        }
    }
}

/// One response. Exactly one of `values`/`pairs` is populated on a
/// successful read, both are empty on a successful write, and `message` is
/// empty exactly on success.
#[derive(Debug)]
pub struct CommandResponse {
    pub status: u32,
    pub message: String,
    pub values: Vec<Value>,
    pub pairs: Vec<Kvpair>,
}

/// The mathematical shape of a [`CommandResponse`].
#[verifier::ext_equal]
pub struct RespView {
    pub status: u32,
    pub message: Seq<char>,
    pub values: Seq<ValueView>,
    pub pairs: Seq<KvpairView>,
}

impl Clone for CommandResponse {
    fn clone(&self) -> (r: Self)
        ensures
            r@ == self@,
    {
        let r = CommandResponse {
            status: self.status,
            message: self.message.clone(),
            values: self.values.clone(),
            pairs: self.pairs.clone(),
        };
        proof {
            assert(r.values.deep_view() =~= self.values.deep_view());
            assert(r.pairs.deep_view() =~= self.pairs.deep_view());
        }
        r
    }
}

impl View for CommandResponse {
    type V = RespView;

    open spec fn view(&self) -> RespView {
        RespView {
            status: self.status,
            message: self.message@,
            values: self.values.deep_view(),
            pairs: self.pairs.deep_view(),
        }
    }
}

impl CommandResponse {
    /// A success response carrying the given values.
    pub fn ok_with_values(values: Vec<Value>) -> (r: Self)
        ensures
            r@ == (RespView {
                status: 200,
                message: Seq::<char>::empty(),
                values: values.deep_view(),
                pairs: Seq::<KvpairView>::empty(),
            }),
    {
        let r = CommandResponse { status: 200, message: String::new(), values, pairs: Vec::new() };
        proof {
            assert(r.pairs.deep_view() =~= Seq::<KvpairView>::empty());
        }
        r
    }

    /// A success response carrying the given pairs.
    pub fn ok_with_pairs(pairs: Vec<Kvpair>) -> (r: Self)
        ensures
            r@ == (RespView {
                status: 200,
                message: Seq::<char>::empty(),
                values: Seq::<ValueView>::empty(),
                pairs: pairs.deep_view(),
            }),
    {
        let r = CommandResponse { status: 200, message: String::new(), values: Vec::new(), pairs };
        proof {
            assert(r.values.deep_view() =~= Seq::<ValueView>::empty());
        }
        r
    }
}

} // verus!
