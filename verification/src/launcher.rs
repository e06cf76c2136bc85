//! Opening `zotero://` URIs: which URIs may be handed to the operating
//! system, and the launcher abstraction.

use crate::errors::Error;
use crate::models::{select_uri, LibraryKind};
use crate::text::{cat2, chars_of, starts_with, starts_with_chars};
use vstd::prelude::*;

verus! {

/// Abstraction over the OS "open this URI" facility.
pub trait UriLauncher {
    fn open(&self, uri: &str) -> Result<(), Error>;
}

/// A URI that Zotero handles: `zotero://select/...` or
/// `zotero://open-pdf/...`.
pub open spec fn zotero_uri(uri: Seq<char>) -> bool {
    starts_with(uri, "zotero://select/"@) || starts_with(uri, "zotero://open-pdf/"@)
}

/// Whether a URI has the shape of a Zotero item link.
pub fn is_valid_zotero_uri(uri: &str) -> (res: bool)
    ensures
        res == zotero_uri(uri@),
{
    let u = chars_of(uri);
    starts_with_chars(&u, &chars_of("zotero://select/")) || starts_with_chars(
        &u,
        &chars_of("zotero://open-pdf/"),
    )
}

/// The check a launcher makes before handing a URI to the OS: anything
/// but a Zotero item link is refused with a launcher error.
pub fn check_launch_uri(uri: &str) -> (res: Result<(), Error>)
    ensures
        zotero_uri(uri@) ==> res is Ok,
        !zotero_uri(uri@) ==> (res matches Err(Error::Launcher(m)) && m@
            == "refusing to open non-zotero URI: "@ + uri@),
{
    if is_valid_zotero_uri(uri) {
        Ok(())
    } else {
        Err(Error::Launcher(cat2("refusing to open non-zotero URI: ", uri)))
    }
}

/// Every select URI built for an item is one that the launcher accepts.
pub proof fn law_select_uri_is_launchable(
    kind: LibraryKind,
    library_id: Seq<char>,
    item_key: Seq<char>,
)
    ensures
        zotero_uri(select_uri(kind, library_id, item_key)),
{
    reveal_strlit("zotero://select/");
    reveal_strlit("zotero://select/library/items/");
    reveal_strlit("zotero://select/groups/");
    let p = "zotero://select/"@;
    let u = select_uri(kind, library_id, item_key);
    match kind {
        LibraryKind::User => {
            assert(u.take(p.len() as int) =~= p);
        },
        LibraryKind::Group => {
            assert(u.take(p.len() as int) =~= p);
        },
    }
}

} // verus!
