//! A RakNet protocol library: sequence numbers, datagram acknowledgement
//! bookkeeping, reliable/ordered delivery state, and the byte-level wire
//! format of the RakNet messages, all with machine-checked contracts.

pub mod acknowledge_handler;
pub mod bedroxide;
pub mod acknowledgement;
pub mod address;
pub mod clock;
pub mod codec;
pub mod config;
pub mod connection;
pub mod connection_manager;
pub mod constants;
pub mod datagram_header;
pub mod datagram_heap;
pub mod datagram_range;
pub mod datagram_range_list;
pub mod error;
pub mod events;
pub mod internal_packet;
pub mod message_ids;
pub mod messages;
pub mod nack;
pub mod offline_packet_handler;
pub mod number;
pub mod ordering_channel;
pub mod ordering_system;
pub mod outgoing_packet_heap;
pub mod packet;
pub mod packet_datagram;
pub mod peer;
pub mod reader;
pub mod reliability_layer;
pub mod reliable_message_number_handler;
pub mod split_packet_handler;
pub mod utils;
pub mod writer;
