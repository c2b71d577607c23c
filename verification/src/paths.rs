//! Where the system files of an image lie in an extracted tree.

use vstd::prelude::*;

verus! {

pub const APPLOADER_PATH: &'static str = "&&systemdata/Apploader.ldr";

pub const DOL_PATH: &'static str = "&&systemdata/Start.dol";

pub const FST_PATH: &'static str = "&&systemdata/Game.toc";

pub const HEADER_PATH: &'static str = "&&systemdata/ISO.hdr";

} // verus!
