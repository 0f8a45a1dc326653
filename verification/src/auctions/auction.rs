use vstd::prelude::*;
use crate::constants::fixed_sizes::KEY_SIZE;
use crate::constants::utils::{decimal_chars, milliseconds_since_epoch, push_decimal};
use crate::network::key::{spec_key_of, Key};

verus! {

/// An auction: what is sold, by whom, from when and for how long.
#[derive(Debug)]
pub struct Auction {
    auction_id: [u8; KEY_SIZE],
    auctioneer_node_id: String,
    auction_name: String,
    /// The IEEE 754 bits of the minimum bid.
    minimum_bid_bits: u32,
    auction_duration: u64,
    initial_ts: u64,
    auctioneer_pk: String,
    signature: String,
}

/// The fields of an auction, with the texts as characters.
pub struct AuctionView {
    pub auction_id: Seq<u8>,
    pub auctioneer_node_id: Seq<char>,
    pub auction_name: Seq<char>,
    pub minimum_bid_bits: u32,
    pub auction_duration: u64,
    pub initial_ts: u64,
    pub auctioneer_pk: Seq<char>,
    pub signature: Seq<char>,
}

impl View for Auction {
    type V = AuctionView;

    closed spec fn view(&self) -> AuctionView {
        AuctionView {
            auction_id: self.auction_id@,
            auctioneer_node_id: self.auctioneer_node_id@,
            auction_name: self.auction_name@,
            minimum_bid_bits: self.minimum_bid_bits,
            auction_duration: self.auction_duration,
            initial_ts: self.initial_ts,
            auctioneer_pk: self.auctioneer_pk@,
            signature: self.signature@,
        }
    }
}

/// The identifier of an auction: the key of `name:initial_ts`.
pub open spec fn spec_auction_id(name: Seq<char>, initial_ts: u64) -> Seq<u8> {
    spec_key_of(name + seq![':'] + decimal_chars(initial_ts as nat))
}

impl Auction {
    /// An auction with the given details, identified by the key of
    /// `auction_name:initial_ts`.
    pub fn new(
        auction_name: String,
        auctioneer_node_id: String,
        minimum_bid_bits: u32,
        initial_ts: u64,
        auction_duration: u64,
        auctioneer: String,
        signature: String,
    ) -> (a: Self)
        ensures
            a@ == (AuctionView {
                auction_id: spec_auction_id(auction_name@, initial_ts),
                auctioneer_node_id: auctioneer_node_id@,
                auction_name: auction_name@,
                minimum_bid_bits,
                auction_duration,
                initial_ts,
                auctioneer_pk: auctioneer@,
                signature: signature@,
            }),
    {
        let auction_id = Auction::generate_id(&auction_name, initial_ts);
        Auction {
            auction_id,
            auctioneer_node_id,
            auction_name,
            minimum_bid_bits,
            auction_duration,
            initial_ts,
            auctioneer_pk: auctioneer,
            signature,
        }
    }

    /// An unsigned auction that starts now.
    pub fn with_defaults(
        auction_name: String,
        auctioneer_node_id: String,
        minimum_bid_bits: u32,
        auction_duration: u64,
        auctioneer: String,
    ) -> (a: Self)
        ensures
            a@.auction_id == spec_auction_id(auction_name@, a@.initial_ts),
            a@.auctioneer_node_id == auctioneer_node_id@,
            a@.auction_name == auction_name@,
            a@.minimum_bid_bits == minimum_bid_bits,
            a@.auction_duration == auction_duration,
            a@.auctioneer_pk == auctioneer@,
            a@.signature == Seq::<char>::empty(),
    {
        let initial_ts = milliseconds_since_epoch();
        let auction_id = Auction::generate_id(&auction_name, initial_ts);
        Auction {
            auction_id,
            auctioneer_node_id,
            auction_name,
            minimum_bid_bits,
            auction_duration,
            initial_ts,
            auctioneer_pk: auctioneer,
            signature: String::new(),
        }
    }

    /// When the auction ends: its start plus its duration.
    pub fn get_final_ts(&self) -> (ts: u64)
        requires
            self@.initial_ts + self@.auction_duration <= u64::MAX,
        ensures
            ts == self@.initial_ts + self@.auction_duration,
    {
        self.initial_ts + self.auction_duration
    }

    fn generate_id(auction_name: &String, initial_ts: u64) -> (id: [u8; KEY_SIZE])
        ensures
            id@ == spec_auction_id(auction_name@, initial_ts),
    {
        let mut text = auction_name.clone();
        proof {
            reveal_strlit(":");
        }
        text.append(":");
        assert(text@ =~= auction_name@ + seq![':']);
        push_decimal(&mut text, initial_ts as u128);
        Key::new(text).0
    }

    /// The identifier of the auction.
    pub fn auction_id(&self) -> (id: [u8; KEY_SIZE])
        ensures
            id@ == self@.auction_id,
    {
        self.auction_id
    }

    /// The name of the item sold.
    pub fn auction_name(&self) -> (name: &String)
        ensures
            name@ == self@.auction_name,
    {
        &self.auction_name
    }

    /// The IEEE 754 bits of the minimum bid.
    pub fn minimum_bid_bits(&self) -> (bits: u32)
        ensures
            bits == self@.minimum_bid_bits,
    {
        self.minimum_bid_bits
    }

    /// How long the auction lasts.
    pub fn auction_duration(&self) -> (d: u64)
        ensures
            d == self@.auction_duration,
    {
        self.auction_duration
    }

    /// When the auction starts.
    pub fn initial_ts(&self) -> (ts: u64)
        ensures
            ts == self@.initial_ts,
    {
        self.initial_ts
    }
}

} // verus!
