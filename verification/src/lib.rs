//! Verified core of a tool that decrypts and encrypts ASUS ThrottleGear XML
//! configuration files and turns their power limits into Linux kernel quirks.

pub mod text;
pub mod crypto;
pub mod strmap;
pub mod xml;
pub mod xml_parse;
pub mod xml_write;
pub mod xml_crypt;
pub mod limits;
pub mod c_struct;
pub mod patch;
pub mod diff;
pub mod patch_file;
pub mod paths;
pub mod xml_roundtrip;
pub mod convert;
