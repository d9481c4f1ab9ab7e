//! A typed publish/subscribe broker for data points: the wire codec, the
//! schema composition engine, the subscription matcher and the broker's
//! decision logic, all as verified code.

pub mod connection;
pub mod error;
pub mod event_handlers;
pub mod forest;
pub mod identity;
pub mod key;
pub mod lexer;
pub mod meaning;
pub mod packet;
pub mod parser;
pub mod point;
pub mod query;
pub mod reading;
pub mod schema;
pub mod server;
pub mod store;
pub mod subscription;
pub mod syntax;
pub mod text;
pub mod value;
pub mod wire;

pub use connection::{
    Action, Connection, ConnectionErrorKind, ConnectionId, Event, ReadStep, PACKET_SCHEMA_ERR,
    PACKET_SUBSCRIPTION_ERR, PACKET_UPDATE_ERR,
};
pub use error::{Error, ErrorKind};
pub use event_handlers::{
    add_connection, connection_error, handle_new_connection, handle_packet, point_update,
    server_error,
};
pub use key::{Key, RawKey, StringKey};
pub use packet::{Packet, PacketView};
pub use point::{Namespace, Point, PointType, TypeSet};
pub use parser::{build, parse};
pub use query::{Query, QueryPart, NS_DIVIDER, WILDCARD};
pub use schema::{Fact, Schema};
pub use server::Server;
pub use store::{MemoryStore, Store, UpdateError, ValueStore};
pub use subscription::{SubscriptionError, SubscriptionSet};
pub use syntax::{
    parse_declarations, Item, NamespaceDecl, ParseError, ParseErrorKind, PointDecl, TypeRef,
};
pub use value::{Value, ValueView};
