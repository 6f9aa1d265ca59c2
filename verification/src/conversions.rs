pub mod headers;
