//! Load-balancer service definitions kept in a flat, fixed-capacity key/value
//! table: the record layout, the table itself, and the list / add / delete
//! protocols that keep a one-to-many "frontend -> backends" view over it.

pub mod text;

pub mod map;

pub mod service;

pub mod table;

pub mod order;

pub mod registry;

pub mod report;
