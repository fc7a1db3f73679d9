//! Lets an in-memory string be consumed through `std::io::Read`, byte by
//! byte or in caller-sized chunks, for instance behind a `BufReader` that
//! splits it into lines. This is especially useful when writing tests.

pub mod reader;

pub use reader::StringReader;
