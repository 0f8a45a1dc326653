use vstd::prelude::*;
use crate::constants::utils::{
    hex_encode, is_lower_hex, lemma_hex_shape, sha3_256_digest, spec_hex, spec_sha3_256, utf8,
};

verus! {

/// A sealed bid on an auction.
#[derive(Debug)]
pub struct Bid {
    bid_id: String,
    user_node_id: String,
    auction_id: String,
    user_public_key: String,
    encrypted_bid: String,
}

/// The identifier of a bid: the lowercase hex SHA3-256 of the bidder's node
/// identifier, the auction identifier, the bidder's public key and the
/// encrypted amount, one after another.
pub open spec fn spec_bid_id(
    user_node_id: Seq<char>,
    auction_id: Seq<char>,
    user_public_key: Seq<char>,
    encrypted_bid: Seq<char>,
) -> Seq<char> {
    spec_hex(spec_sha3_256(utf8(user_node_id + auction_id + user_public_key + encrypted_bid)))
}

impl Bid {
    /// A bid identified by the hash of its fields.
    pub fn new(
        user_node_id: String,
        user_public_key: String,
        encrypted_bid: String,
        auction_id: String,
    ) -> (b: Bid)
        ensures
            b.bid_id() == spec_bid_id(user_node_id@, auction_id@, user_public_key@, encrypted_bid@),
            b.bid_id().len() == 64,
            is_lower_hex(b.bid_id()),
            b.user_node_id() == user_node_id@,
            b.auction_id() == auction_id@,
            b.user_public_key() == user_public_key@,
            b.encrypted_bid() == encrypted_bid@,
    {
        let bid_id = Bid::calculate_hash(&user_node_id, &auction_id, &user_public_key, &encrypted_bid);
        Bid { bid_id, user_node_id, auction_id, user_public_key, encrypted_bid }
    }

    fn calculate_hash(
        user_node_id: &String,
        auction_id: &String,
        user_public_key: &String,
        encrypted_bid: &String,
    ) -> (h: String)
        ensures
            h@ == spec_bid_id(user_node_id@, auction_id@, user_public_key@, encrypted_bid@),
            h@.len() == 64,
            is_lower_hex(h@),
    {
        let mut data = user_node_id.clone();
        data.append(auction_id.as_str());
        data.append(user_public_key.as_str());
        data.append(encrypted_bid.as_str());
        let hash = sha3_256_digest(data.as_str().as_bytes());
        proof {
            lemma_hex_shape(hash@);
        }
        hex_encode(hash.as_slice())
    }

    /// The identifier of the bid.
    pub closed spec fn bid_id(&self) -> Seq<char> {
        self.bid_id@
    }

    /// The node identifier of the bidder.
    pub closed spec fn user_node_id(&self) -> Seq<char> {
        self.user_node_id@
    }

    /// The identifier of the auction.
    pub closed spec fn auction_id(&self) -> Seq<char> {
        self.auction_id@
    }

    /// The bidder's public key.
    pub closed spec fn user_public_key(&self) -> Seq<char> {
        self.user_public_key@
    }

    /// The encrypted amount.
    pub closed spec fn encrypted_bid(&self) -> Seq<char> {
        self.encrypted_bid@
    }

    /// The identifier of the bid.
    pub fn get_bid_id(&self) -> (id: &String)
        ensures
            id@ == self.bid_id(),
    {
        &self.bid_id
    }

    /// The node identifier of the bidder.
    pub fn get_user_node_id(&self) -> (id: &String)
        ensures
            id@ == self.user_node_id(),
    {
        &self.user_node_id
    }

    /// The identifier of the auction.
    pub fn get_auction_id(&self) -> (id: &String)
        ensures
            id@ == self.auction_id(),
    {
        &self.auction_id
    }
}

} // verus!
