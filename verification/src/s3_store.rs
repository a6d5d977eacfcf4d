//! The object store seen from the cache: where objects live, how a key is
//! spelled there, and what each reply of the store means.
//!
//! Nothing here talks to the network. The caller sends the request and hands
//! the reply back as a plain value.

use bytes::Bytes;
use vstd::prelude::*;

verus! {

/// Why a request to the object store did not succeed.
#[derive(Debug, PartialEq, Eq)]
pub enum StoreError {
    /// A write failed; the text is the store's own account of it.
    S3WriteError(String),
    /// A read failed; the text is the store's own account of it.
    S3ReadError(String),
    /// The store holds nothing under this object key.
    ItemNotFound(String),
}

impl StoreError {
    /// The store has answered that the object does not exist.
    pub open spec fn not_found(self) -> bool {
        self is ItemNotFound
    }

    /// The text that `message` gives for this error.
    pub open spec fn message_view(self) -> Seq<char> {
        match self {
            StoreError::S3WriteError(detail) => "S3 write operation failed: "@ + detail@,
            StoreError::S3ReadError(detail) => "S3 read operation failed: "@ + detail@,
            StoreError::ItemNotFound(key) => "Item "@ + key@ + " not found"@,
        }
    }

    /// Tells the authoritative "no such object" apart from every other
    /// failure.
    pub fn is_not_found(&self) -> (absent: bool)
        ensures
            absent == self.not_found(),
    {
        match self {
            StoreError::ItemNotFound(_) => true,
            _ => false,
        }
    }

    /// The error as a line of text for a log or a reply.
    pub fn message(&self) -> (text: String)
        ensures
            text@ == self.message_view(),
    {
        match self {
            StoreError::S3WriteError(detail) => {
                String::from_str("S3 write operation failed: ").concat(detail.as_str())
            },
            StoreError::S3ReadError(detail) => {
                String::from_str("S3 read operation failed: ").concat(detail.as_str())
            },
            StoreError::ItemNotFound(key) => {
                String::from_str("Item ").concat(key.as_str()).concat(" not found")
            },
        }
    }
}

/// What the object store answered to a read.
#[derive(Debug, PartialEq, Eq)]
pub enum GetObjectReply {
    /// The object exists; its body was read in full.
    Body(Bytes),
    /// The store answered that it holds no such key.
    NoSuchKey,
    /// Anything else went wrong, on the way or in the store; the text says
    /// what.
    Failed(String),
}

/// Where the cached objects live: a bucket, and a name that prefixes every
/// object key in it.
pub struct S3Store {
    bucket: String,
    store: String,
}

impl S3Store {
    /// The bucket's name.
    pub closed spec fn bucket_view(&self) -> Seq<char> {
        self.bucket@
    }

    /// The prefix of every object key.
    pub closed spec fn store_view(&self) -> Seq<char> {
        self.store@
    }

    /// How `key` is spelled in the bucket: the prefix, a slash, the key.
    pub open spec fn object_key_view(&self, key: Seq<char>) -> Seq<char> {
        self.store_view() + seq!['/'] + key
    }

    /// The place named by `bucket` and `store`.
    pub fn new(bucket: &str, store: &str) -> (place: S3Store)
        ensures
            place.bucket_view() == bucket@,
            place.store_view() == store@,
    {
        S3Store { bucket: bucket.to_owned(), store: store.to_owned() }
    }

    /// The bucket's name.
    pub fn bucket(&self) -> (name: &str)
        ensures
            name@ == self.bucket_view(),
    {
        self.bucket.as_str()
    }

    /// The object key under which the store keeps `key`.
    pub fn object_key(&self, key: &str) -> (object_key: String)
        ensures
            object_key@ == self.object_key_view(key@),
    {
        proof {
            reveal_strlit("/");
            assert("/"@ =~= seq!['/']);
        }
        self.store.clone().concat("/").concat(key)
    }

    /// The outcome of reading `key`, given the store's reply.
    ///
    /// A body is handed on as it is. "No such key" becomes `ItemNotFound`
    /// with the object key that was asked for; every other failure becomes
    /// `S3ReadError` with the store's text.
    pub fn get(&self, key: &str, reply: GetObjectReply) -> (outcome: Result<Bytes, StoreError>)
        ensures
            match reply {
                GetObjectReply::Body(body) => outcome == Ok::<Bytes, StoreError>(body),
                GetObjectReply::NoSuchKey => outcome matches Err(StoreError::ItemNotFound(name))
                    && name@ == self.object_key_view(key@),
                GetObjectReply::Failed(detail) => outcome == Err::<Bytes, StoreError>(
                    StoreError::S3ReadError(detail),
                ),
            },
    {
        match reply {
            GetObjectReply::Body(body) => Ok(body),
            GetObjectReply::NoSuchKey => Err(StoreError::ItemNotFound(self.object_key(key))),
            GetObjectReply::Failed(detail) => Err(StoreError::S3ReadError(detail)),
        }
    }

    /// The outcome of a write, given the store's reply: success as it is, a
    /// failure as `S3WriteError` with the store's text.
    pub fn set(&self, reply: Result<(), String>) -> (outcome: Result<(), StoreError>)
        ensures
            match reply {
                Ok(_) => outcome == Ok::<(), StoreError>(()),
                Err(detail) => outcome == Err::<(), StoreError>(StoreError::S3WriteError(detail)),
            },
    {
        match reply {
            Ok(_) => Ok(()),
            Err(detail) => Err(StoreError::S3WriteError(detail)),
        }
    }
}

} // verus!
