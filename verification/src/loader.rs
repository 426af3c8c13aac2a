//! What to do about each channel map that a material names.
//!
//! Reading and decoding a file is the caller's part. This module decides
//! whether there is a file to read, and what becomes of a failure: a map
//! that cannot be had is left out with a warning, and the material is
//! composed from the maps that remain. Nothing here ends the run.

use crate::material::ChannelRef;
use crate::raster::Raster;
use vstd::prelude::*;
use vstd::string::*;

verus! {

/// What loading one channel came to: the map, if there is one, and the
/// warning to give, if there is one.
#[derive(Debug, PartialEq, Eq)]
pub struct LoadedChannel {
    pub map: Option<Raster>,
    pub warning: Option<String>,
}

/// The next step for one channel.
#[derive(Debug, PartialEq, Eq)]
pub enum LoadStep {
    /// There is no file to read, and this is what the channel comes to.
    Done(LoadedChannel),
    /// The image is a file: decode the file at `uri`, taken relative to the
    /// directory of the asset, and hand the result to `channel_from_decode`.
    Open { uri: String },
}

/// The warning for an image that is kept inside a buffer of the asset.
pub open spec fn unsupported_text() -> Seq<char> {
    "Images in data views not supported."@
}

/// Decides how the map of one channel is to be had.
///
/// A channel that the material does not name has no map and no warning. An
/// image inside a buffer of the asset is not supported: no map, and a
/// warning. An image in a file of its own is to be opened.
pub fn load_if_exists(reference: &Option<ChannelRef>) -> (step: LoadStep)
    ensures
        match *reference {
            None => step == LoadStep::Done(LoadedChannel { map: None, warning: None }),
            Some(ChannelRef::Embedded) => step matches LoadStep::Done(c) && c.map is None
                && c.warning is Some && c.warning->Some_0@ == unsupported_text(),
            Some(ChannelRef::External { uri }) => step == (LoadStep::Open { uri }),
        },
{
    match reference {
        None => LoadStep::Done(LoadedChannel { map: None, warning: None }),
        Some(ChannelRef::Embedded) => LoadStep::Done(
            LoadedChannel {
                map: None,
                warning: Some(String::from_str("Images in data views not supported.")),
            },
        ),
        Some(ChannelRef::External { uri }) => LoadStep::Open { uri: uri.clone() },
    }
}

/// The outcome for a channel whose file was read: the decoded map, or no
/// map and the decoder's message as a warning.
pub fn channel_from_decode(decoded: Result<Raster, String>) -> (res: LoadedChannel)
    ensures
        match decoded {
            Ok(img) => res == LoadedChannel { map: Some(img), warning: None },
            Err(message) => res == LoadedChannel { map: None, warning: Some(message) },
        },
{
    match decoded {
        Ok(img) => LoadedChannel { map: Some(img), warning: None },
        Err(message) => LoadedChannel { map: None, warning: Some(message) },
    }
}

} // verus!
