//! Output containers.

pub mod mbtiles;
pub mod pmtiles;

use crate::text::same_text;
use vstd::prelude::*;

verus! {

/// Output container, inferred from the output file extension.
#[derive(Debug, Clone, Copy, PartialEq, Eq, Structural)]
pub enum Container {
    Pmtiles,
    Mbtiles,
}

/// The output file has an extension that names no container.
#[derive(Debug, PartialEq, Eq)]
pub struct UnknownExtension {
    /// The extension, if the file has one.
    pub extension: Option<String>,
}

impl Container {
    /// The container for an output file extension: `pmtiles` or `mbtiles`.
    pub fn for_extension(extension: Option<&str>) -> (res: Result<Container, UnknownExtension>)
        ensures
            match extension {
                None => res matches Err(e) && e.extension is None,
                Some(ext) => if ext@ == "pmtiles"@ {
                    res == Ok::<Container, UnknownExtension>(Container::Pmtiles)
                } else if ext@ == "mbtiles"@ {
                    res == Ok::<Container, UnknownExtension>(Container::Mbtiles)
                } else {
                    res matches Err(e) && (e.extension matches Some(text) && text@ == ext@)
                },
            },
    {
        match extension {
            None => Err(UnknownExtension { extension: None }),
            Some(ext) => if same_text(ext, "pmtiles") {
                Ok(Container::Pmtiles)
            } else if same_text(ext, "mbtiles") {
                Ok(Container::Mbtiles)
            } else {
                Err(UnknownExtension { extension: Some(ext.to_owned()) })
            },
        }
    }
}

impl Container {
    /// A container is found exactly for the two extensions, and any other is given back.
    pub proof fn law_extension(
        extension: Option<&str>,
        res: Result<Container, UnknownExtension>,
    )
        requires
            call_ensures(Container::for_extension, (extension,), res),
        ensures
            (res matches Ok(c) && c is Pmtiles) <==> (extension matches Some(e) && e@ == "pmtiles"@),
            (res matches Ok(c) && c is Mbtiles) <==> (extension matches Some(e) && e@ == "mbtiles"@),
            res matches Err(u) ==> (match (u.extension, extension) {
                (None, None) => true,
                (Some(a), Some(b)) => a@ == b@,
                _ => false,
            }),
    {
        reveal_strlit("pmtiles");
        reveal_strlit("mbtiles");
        assert("pmtiles"@[0] != "mbtiles"@[0]);
    }
}

} // verus!
