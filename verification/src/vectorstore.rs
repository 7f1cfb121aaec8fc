//! The vector index of a project.

use crate::files::EntryKind;
use crate::paths;
use crate::paths::PathStyle;
use crate::search;
use crate::search::ContentServiceError;
use crate::text;
use vstd::prelude::*;

verus! {

/// The table of whole pages that older indexes have.
pub const TABLE_V1: &'static str = "wiki_vectors";

/// The table of parts of pages.
pub const TABLE_V2: &'static str = "wiki_chunks_v2";

/// How many parts are given at most.
pub const MAX_VECTOR_RESULTS: usize = 200;

/// How far the vector index of a project is filled.
#[derive(Debug)]
pub struct VectorStatusResponse {
    pub ok: bool,
    pub available: bool,
    pub chunk_count: usize,
    pub legacy_page_count: usize,
}

/// A number of parts within the limits: one at least, and two hundred at most.
pub open spec fn within_limits(k: usize) -> nat {
    if k < 1 {
        1
    } else if k > MAX_VECTOR_RESULTS {
        MAX_VECTOR_RESULTS as nat
    } else {
        k as nat
    }
}

/// A number of parts within the limits.
pub fn clamp_results(k: usize) -> (r: usize)
    ensures
        r == within_limits(k),
{
    if k < 1 {
        1
    } else if k > MAX_VECTOR_RESULTS {
        MAX_VECTOR_RESULTS
    } else {
        k
    }
}

/// How many parts a request is given: twenty where it does not say.
pub fn requested_results(top_k: Option<usize>) -> (r: usize)
    ensures
        r == within_limits(
            match top_k {
                Some(k) => k,
                None => 20,
            },
        ),
{
    match top_k {
        Some(k) => clamp_results(k),
        None => clamp_results(20),
    }
}

/// How far the vector index of a project is filled, given how many parts and whole pages it
/// holds. A project without an index has none of either.
pub fn vector_status(chunk_count: usize, legacy_page_count: usize) -> (r: VectorStatusResponse)
    ensures
        r.ok,
        r.available == (chunk_count > 0 || legacy_page_count > 0),
        r.chunk_count == chunk_count,
        r.legacy_page_count == legacy_page_count,
{
    VectorStatusResponse {
        ok: true,
        available: chunk_count > 0 || legacy_page_count > 0,
        chunk_count,
        legacy_page_count,
    }
}

/// Whether a list of tables holds the table `name`.
pub fn has_table(tables: &Vec<String>, name: &str) -> (r: bool)
    ensures
        r == text::strings(tables@).contains(name@),
{
    let ghost all = text::strings(tables@);
    let mut i: usize = 0;
    while i < tables.len()
        invariant
            i <= tables@.len(),
            all == text::strings(tables@),
            forall|k: int| 0 <= k < i ==> #[trigger] all[k] != name@,
        decreases tables@.len() - i,
    {
        assert(all[i as int] == tables@[i as int]@);
        if text::same_text(tables[i].as_str(), name) {
            return true;
        }
        i += 1;
    }
    false
}

/// Looks at a directory on the way to the vector index: whether it is there. A symlink is
/// refused, and so is what is no directory.
pub fn check_index_directory(kind: Option<EntryKind>) -> (r: Result<bool, ContentServiceError>)
    ensures
        match kind {
            None => r matches Ok(found) && !found,
            Some(EntryKind::Directory) => r matches Ok(found) && found,
            Some(EntryKind::Symlink) => r matches Err(e) && e@
                == search::ContentError::InvalidProject(
                "Project content symlinks are not allowed"@,
            ),
            Some(_) => r matches Err(e) && e@ == search::ContentError::InvalidProject(
                "Project vector index path must be a directory"@,
            ),
        },
{
    match kind {
        None => Ok(false),
        Some(EntryKind::Directory) => Ok(true),
        Some(EntryKind::Symlink) => Err(
            ContentServiceError::invalid_project("Project content symlinks are not allowed"),
        ),
        Some(_) => Err(
            ContentServiceError::invalid_project("Project vector index path must be a directory"),
        ),
    }
}

/// Refuses a vector index that resolves to a place outside the project.
pub fn check_index_inside(style: PathStyle, index: &str, project: &str) -> (r: Result<
    (),
    ContentServiceError,
>)
    ensures
        match r {
            Ok(_) => paths::stands_in(style, index@, project@),
            Err(e) => !paths::stands_in(style, index@, project@) && e@
                == search::ContentError::InvalidProject(
                "Project vector index escapes the project root"@,
            ),
        },
{
    if paths::path_stands_in(style, index, project) {
        Ok(())
    } else {
        Err(ContentServiceError::invalid_project("Project vector index escapes the project root"))
    }
}

} // verus!
